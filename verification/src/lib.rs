//! A round robin CPU scheduling simulator.
//!
//! Processes with arrival times and burst durations are fed to a
//! [`RoundRobinDispatcher`], which simulates the round robin algorithm to
//! completion: at each step the front of a FIFO admission queue runs for up
//! to one quantum, simulated time advances by the ticks actually consumed,
//! and an unfinished process is re-admitted behind the processes that
//! arrived in the meantime. The dispatcher reports each process's exit,
//! turnaround and wait time, and a Gantt chart of the executed intervals.

pub mod gantt;
pub mod model;
pub mod parse;
pub mod process;

use std::collections::VecDeque;

use vstd::prelude::*;

use crate::gantt::{chart_view, compact_chart, spec_compact, GanttNode, IntervalModel};
use crate::model::{
    admit_states, admitted_pids, aligned, all_finished, count_nis, fresh_process_list, last_count,
    last_seq, lemma_count_nis_from_update, lemma_counts_admit_from, lemma_fresh_total_rem,
    lemma_sim_step, lemma_total_rem_from_zero, nis_weight, procs_view, rem, run_process, sim,
    spec_run, step_consumed, total_burst, total_rem, wf_sim_state, SimOutcome,
};
use crate::process::{
    exit_consistent, lemma_totals_bounded, tat_weight, total_turnaround, total_wait, Process,
    ProcessModel, ProcessState, ResultModel, SchedulerResult,
};

verus! {

/// The ways a run can fail.
///
/// `NoProcesses`: `run` was called with an empty process list, so the
/// averages would be undefined. `QueueEmpty`: the admission queue ran empty
/// while unfinished processes remained — every remaining process had a
/// still-future arrival time, so simulated time (which only advances when a
/// process runs) could never reach it.
#[derive(Clone, Copy, PartialEq, Eq, Structural, Debug)]
pub enum ScheduleError {
    NoProcesses,
    QueueEmpty,
}

/// The view of the id queue.
pub open spec fn pids_view(s: Seq<usize>) -> Seq<nat> {
    s.map_values(|x: usize| x as nat)
}

/// The view of the deferred re-admission slot.
pub open spec fn slot_view(l: Option<usize>) -> Option<nat> {
    match l {
        Some(x) => Some(x as nat),
        None => None,
    }
}

/// Owns a list of processes and runs the round robin simulation over them.
pub struct RoundRobinDispatcher {
    queue: Vec<Process>,
    quantum: usize,
    minimize_chart: bool,
    result: Option<SchedulerResult>,
}

impl RoundRobinDispatcher {
    /// The owned process list, as models.
    pub closed spec fn processes(&self) -> Seq<ProcessModel> {
        procs_view(self.queue@)
    }

    /// The configured time slice.
    pub closed spec fn quantum_spec(&self) -> nat {
        self.quantum as nat
    }

    /// Whether the reported Gantt chart is compacted.
    pub closed spec fn minimize_spec(&self) -> bool {
        self.minimize_chart
    }

    /// The last computed result, if a run has completed.
    pub closed spec fn result_spec(&self) -> Option<ResultModel> {
        match self.result {
            Some(r) => Some(r@),
            None => None,
        }
    }

    /// The dispatcher's invariant: the quantum is a positive number of
    /// ticks.
    pub open spec fn wf(&self) -> bool {
        self.quantum_spec() >= 1
    }

    /// A dispatcher with no processes, the default quantum of 2 ticks, no
    /// chart compaction, and no result yet.
    pub fn new() -> (d: RoundRobinDispatcher)
        ensures
            d.wf(),
            d.processes() == Seq::<ProcessModel>::empty(),
            d.quantum_spec() == 2,
            !d.minimize_spec(),
            d.result_spec() is None,
    {
        let d = RoundRobinDispatcher {
            queue: Vec::new(),
            quantum: 2,
            minimize_chart: false,
            result: None,
        };
        proof {
            assert(d.processes() =~= Seq::<ProcessModel>::empty());
        }
        d
    }

    /// Sets the fixed time slice per scheduling decision; it must be a
    /// positive number of ticks.
    pub fn set_quantum(&mut self, quantum: usize)
        requires
            quantum >= 1,
        ensures
            final(self).wf(),
            final(self).quantum_spec() == quantum,
            final(self).processes() == old(self).processes(),
            final(self).minimize_spec() == old(self).minimize_spec(),
            final(self).result_spec() == old(self).result_spec(),
    {
        self.quantum = quantum;
    }

    /// Chooses whether the reported Gantt chart coalesces consecutive
    /// intervals of the same process.
    pub fn set_minimize_chart(&mut self, minimize: bool)
        ensures
            final(self).wf() == old(self).wf(),
            final(self).quantum_spec() == old(self).quantum_spec(),
            final(self).processes() == old(self).processes(),
            final(self).minimize_spec() == minimize,
            final(self).result_spec() == old(self).result_spec(),
    {
        self.minimize_chart = minimize;
    }

    /// Appends a process to the internal ordered collection, preserving
    /// insertion order.
    pub fn add_process(&mut self, process: Process)
        ensures
            final(self).wf() == old(self).wf(),
            final(self).quantum_spec() == old(self).quantum_spec(),
            final(self).processes() == old(self).processes().push(process@),
            final(self).minimize_spec() == old(self).minimize_spec(),
            final(self).result_spec() == old(self).result_spec(),
    {
        self.queue.push(process);
        proof {
            assert(self.processes() =~= old(self).processes().push(process@));
        }
    }

    /// The owned process list, in insertion order: after a successful run
    /// its entries carry the final states, exit times and progress.
    pub fn process_list(&self) -> (r: &Vec<Process>)
        ensures
            procs_view(r@) == self.processes(),
    {
        &self.queue
    }

    /// The last computed result, or `None` if no run has completed.
    pub fn result(&self) -> (r: Option<&SchedulerResult>)
        ensures
            match r {
                Some(res) => self.result_spec() == Some(res@),
                None => self.result_spec() is None,
            },
    {
        match &self.result {
            Some(res) => Some(res),
            None => None,
        }
    }

    /// Every process of the list is `Finished`.
    fn all_done(processes: &Vec<Process>) -> (b: bool)
        ensures
            b == all_finished(procs_view(processes@)),
    {
        let mut i: usize = 0;
        while i < processes.len()
            invariant
                i <= processes@.len(),
                forall|k: int|
                    0 <= k < i ==> (#[trigger] procs_view(processes@)[k]).state
                        == ProcessState::Finished,
            decreases processes@.len() - i,
        {
            if !matches!(processes[i].state, ProcessState::Finished) {
                proof {
                    assert(procs_view(processes@)[i as int].state != ProcessState::Finished);
                }
                return false;
            }
            i = i + 1;
        }
        true
    }

    /// The arrival scan: admits, in process-list order, every process that
    /// has not entered the system and whose arrival time has been reached,
    /// setting it `Ready` and appending its id to the admission queue.
    fn admit_arrivals(processes: &mut Vec<Process>, wq: &mut VecDeque<usize>, tick: usize)
        ensures
            final(processes)@.len() == old(processes)@.len(),
            procs_view(final(processes)@) == admit_states(procs_view(old(processes)@), tick as nat),
            pids_view(final(wq)@) == pids_view(old(wq)@) + admitted_pids(
                procs_view(old(processes)@),
                tick as nat,
            ),
    {
        let ghost orig = processes@;
        let ghost pre = procs_view(orig);
        let ghost wq0 = wq@;
        let n = processes.len();
        let mut i: usize = 0;
        while i < n
            invariant
                i <= n,
                processes@.len() == n,
                pre == procs_view(orig),
                pre.len() == n,
                forall|k: int| i <= k < n ==> processes@[k] == orig[k],
                forall|k: int|
                    0 <= k < i ==> (#[trigger] processes@[k])@ == (if crate::model::admissible(
                        pre[k],
                        tick as nat,
                    ) {
                        ProcessModel { state: ProcessState::Ready, ..pre[k] }
                    } else {
                        pre[k]
                    }),
                pids_view(wq@) + crate::model::admitted_pids_from(pre, tick as nat, i as int)
                    == pids_view(wq0) + admitted_pids(pre, tick as nat),
            decreases n - i,
        {
            let p = processes[i];
            proof {
                assert(pre[i as int] == p@);
            }
            if matches!(p.state, ProcessState::NotInSystem) && p.arrival_time <= tick {
                let mut np = p;
                np.state = ProcessState::Ready;
                processes.set(i, np);
                let ghost wqb = wq@;
                wq.push_back(p.pid);
                proof {
                    assert(np@ =~= (ProcessModel { state: ProcessState::Ready, ..pre[i as int] }));
                    assert(crate::model::admitted_pids_from(pre, tick as nat, i as int)
                        == seq![pre[i as int].pid] + crate::model::admitted_pids_from(
                        pre,
                        tick as nat,
                        i as int + 1,
                    ));
                    assert(pids_view(wq@) =~= pids_view(wqb).push(p.pid as nat));
                    assert(pids_view(wq@) + crate::model::admitted_pids_from(
                        pre,
                        tick as nat,
                        i as int + 1,
                    ) =~= pids_view(wqb) + crate::model::admitted_pids_from(
                        pre,
                        tick as nat,
                        i as int,
                    ));
                }
            }
            i = i + 1;
        }
        proof {
            assert(procs_view(processes@) =~= admit_states(pre, tick as nat));
            assert(pids_view(wq@) =~= pids_view(wq0) + admitted_pids(pre, tick as nat));
        }
    }

    /// Runs the simulation to completion: loops until every process is
    /// `Finished`, then stores the aggregate result.
    ///
    /// The outcome — the final process states, the Gantt chart and the
    /// result, or the error — is exactly what the mathematical scheduling
    /// loop [`spec_run`] yields on the dispatcher's process list and
    /// quantum. It fails with `NoProcesses` on an empty process list, and
    /// with `QueueEmpty` if the admission queue runs empty while unfinished
    /// processes remain.
    ///
    /// It asks for a fresh process list — ids that are list positions, no
    /// progress, no exit times — so a dispatcher whose processes already
    /// ran is explicitly guarded against a second run. The two bounds keep
    /// the final tick and the summed turnaround times within the machine
    /// word.
    pub fn run(&mut self) -> (r: Result<(), ScheduleError>)
        requires
            old(self).wf(),
            fresh_process_list(old(self).processes()),
            total_burst(old(self).processes()) <= usize::MAX,
            old(self).processes().len() * total_burst(old(self).processes()) <= usize::MAX,
        ensures
            final(self).wf(),
            final(self).quantum_spec() == old(self).quantum_spec(),
            final(self).minimize_spec() == old(self).minimize_spec(),
            old(self).processes().len() == 0 ==> r == Err::<(), ScheduleError>(
                ScheduleError::NoProcesses,
            ) && final(self).processes() == old(self).processes() && final(self).result_spec()
                == old(self).result_spec(),
            old(self).processes().len() > 0 ==> match spec_run(
                old(self).processes(),
                old(self).quantum_spec(),
            ) {
                SimOutcome::Done { procs: fp, gantt: fg, tick: ft } => {
                    &&& r == Ok::<(), ScheduleError>(())
                    &&& final(self).processes() == fp
                    &&& final(self).result_spec() == Some(
                        ResultModel {
                            total_wait: total_wait(fp),
                            total_turnaround: total_turnaround(fp),
                            count: fp.len() as nat,
                            gantt: if old(self).minimize_spec() {
                                spec_compact(fg)
                            } else {
                                fg
                            },
                        },
                    )
                },
                SimOutcome::Stalled { procs: sp } => {
                    &&& r == Err::<(), ScheduleError>(ScheduleError::QueueEmpty)
                    &&& final(self).processes() == sp
                    &&& final(self).result_spec() is None
                },
            },
    {
        let ghost procs0 = self.processes();
        let ghost q = self.quantum as nat;
        if self.queue.len() == 0 {
            return Err(ScheduleError::NoProcesses);
        }
        let ghost target = spec_run(procs0, q);
        let ghost m0 = self.minimize_chart;
        proof {
            assert(wf_sim_state(procs0, 0, Seq::<nat>::empty(), None));
            assert(aligned(procs0, q)) by {
                vstd::arithmetic::div_mod::lemma_small_mod(0, q);
            }
            lemma_fresh_total_rem(procs0, 0);
        }
        let mut tick: usize = 0;
        let mut wq: VecDeque<usize> = VecDeque::new();
        let mut last_unfinished: Option<usize> = None;
        let mut chart: Vec<GanttNode> = Vec::new();
        proof {
            assert(pids_view(wq@) =~= Seq::<nat>::empty());
            assert(chart_view(chart@) =~= Seq::<IntervalModel>::empty());
        }
        while !Self::all_done(&self.queue)
            invariant
                self.quantum as nat == q,
                q >= 1,
                self.minimize_chart == m0,
                procs0 == old(self).processes(),
                q == old(self).quantum_spec(),
                m0 == old(self).minimize_spec(),
                target == spec_run(procs0, q),
                procs0.len() > 0,
                total_rem(procs0) == total_burst(procs0),
                procs0.len() * total_burst(procs0) <= usize::MAX,
                procs_view(self.queue@).len() == procs0.len(),
                wf_sim_state(
                    procs_view(self.queue@),
                    tick as nat,
                    pids_view(wq@),
                    slot_view(last_unfinished),
                ),
                aligned(procs_view(self.queue@), q),
                sim(
                    procs_view(self.queue@),
                    q,
                    tick as nat,
                    pids_view(wq@),
                    slot_view(last_unfinished),
                    chart_view(chart@),
                ) == target,
                tick + total_rem(procs_view(self.queue@)) == total_rem(procs0),
                total_rem(procs0) <= usize::MAX,
            decreases
                    total_rem(procs_view(self.queue@)),
                    pids_view(wq@).len() + count_nis(procs_view(self.queue@)) + last_count(
                        slot_view(last_unfinished),
                    ),
        {
            let ghost s_procs = procs_view(self.queue@);
            let ghost s_tick = tick as nat;
            let ghost s_queue = pids_view(wq@);
            let ghost s_last = slot_view(last_unfinished);
            let ghost s_chart = chart_view(chart@);

            Self::admit_arrivals(&mut self.queue, &mut wq, tick);

            if let Some(lp) = last_unfinished {
                wq.push_back(lp);
                last_unfinished = None;
            }
            let ghost queue2 = s_queue + admitted_pids(s_procs, s_tick) + last_seq(s_last);
            proof {
                assert(pids_view(wq@) =~= queue2);
            }

            match wq.pop_front() {
                None => {
                    proof {
                        assert(queue2.len() == 0);
                        assert(sim(s_procs, q, s_tick, s_queue, s_last, s_chart)
                            == SimOutcome::Stalled { procs: admit_states(s_procs, s_tick) });
                    }
                    self.result = None;
                    return Err(ScheduleError::QueueEmpty);
                },
                Some(pid) => {
                    proof {
                        lemma_sim_step(s_procs, q, s_tick, s_queue, s_last);
                        assert(queue2[0] == pid as nat);
                        assert((pid as nat) < s_procs.len());
                        assert(admit_states(s_procs, s_tick)[pid as int]
                            == procs_view(self.queue@)[pid as int]);
                    }
                    let ghost procs1 = admit_states(s_procs, s_tick);
                    let ghost pm = procs1[pid as int];
                    let ghost c = step_consumed(pm, q);
                    let ghost p2 = run_process(pm, q, s_tick);

                    let mut p = self.queue[pid];
                    proof {
                        assert(p@ == pm);
                        assert(pm.progress <= pm.burst);
                        assert(c <= total_rem(s_procs));
                    }
                    let remaining = p.burst_time - p.progress;
                    let consumed = if self.quantum < remaining {
                        self.quantum
                    } else {
                        remaining
                    };
                    proof {
                        assert(consumed as nat == c);
                    }
                    p.run_for(self.quantum);
                    let start_tick = tick;
                    tick = tick + consumed;
                    chart.push(GanttNode { pid, start: start_tick, end: tick });
                    if matches!(p.state, ProcessState::Finished) {
                        p.exit_time = Some(tick);
                    } else {
                        last_unfinished = Some(pid);
                    }
                    self.queue.set(pid, p);
                    proof {
                        assert(p@ =~= p2);
                        assert(procs_view(self.queue@) =~= procs1.update(pid as int, p2));
                        assert(pids_view(wq@) =~= queue2.drop_first());
                        assert(chart_view(chart@) =~= s_chart.push(
                            IntervalModel { pid: pid as nat, start: s_tick, end: s_tick + c },
                        ));
                        let last2: Option<nat> = if p2.state == ProcessState::Finished {
                            None
                        } else {
                            Some(pid as nat)
                        };
                        assert(slot_view(last_unfinished) == last2);
                        assert(sim(s_procs, q, s_tick, s_queue, s_last, s_chart) == sim(
                            procs_view(self.queue@),
                            q,
                            tick as nat,
                            pids_view(wq@),
                            slot_view(last_unfinished),
                            chart_view(chart@),
                        ));
                        lemma_counts_admit_from(s_procs, s_tick, 0);
                        lemma_count_nis_from_update(procs1, pid as int, p2, 0);
                        assert(nis_weight(procs1[pid as int]) == 0);
                        assert(nis_weight(p2) == 0);
                        if c == 0 {
                            assert(rem(pm) == 0);
                            assert(pm.progress + c >= pm.burst);
                            assert(slot_view(last_unfinished) is None);
                        }
                    }
                },
            }
        }
        proof {
            let fpv = procs_view(self.queue@);
            assert(all_finished(fpv));
            assert(sim(
                fpv,
                q,
                tick as nat,
                pids_view(wq@),
                slot_view(last_unfinished),
                chart_view(chart@),
            ) == SimOutcome::Done { procs: fpv, gantt: chart_view(chart@), tick: tick as nat });
            assert(forall|k: int| 0 <= k < fpv.len() ==> rem(#[trigger] fpv[k]) == 0);
            lemma_total_rem_from_zero(fpv, 0);
            assert(tick == total_rem(procs0));
            assert(forall|k: int|
                0 <= k < fpv.len() ==> (#[trigger] fpv[k]).exit is Some && exit_consistent(
                    fpv[k],
                ));
            assert(forall|k: int|
                0 <= k < fpv.len() ==> tat_weight(#[trigger] fpv[k]) <= total_rem(procs0));
            lemma_totals_bounded(fpv, 0, total_rem(procs0) as int);
            assert(total_turnaround(fpv) <= fpv.len() * total_rem(procs0));
            assert forall|k: int|
                0 <= k < self.queue@.len() implies (#[trigger] self.queue@[k]@).exit is Some
                && exit_consistent(self.queue@[k]@) by {
                assert(fpv[k] == self.queue@[k]@);
                assert(fpv[k].exit is Some && exit_consistent(fpv[k]));
            }
        }
        let final_chart = if self.minimize_chart {
            compact_chart(&chart)
        } else {
            chart
        };
        let res = Process::compute_result(&self.queue, final_chart);
        self.result = Some(res);
        Ok(())
    }
}

} // verus!
