//! The schedulable unit of work: a process with immutable scheduling
//! parameters (id, arrival time, burst time, priority) and mutable run state
//! (progress, lifecycle state, completion time).

use vstd::prelude::*;

use crate::gantt::{chart_view, GanttNode, IntervalModel};

verus! {

/// Lifecycle of a process.
///
/// `NotInSystem` is the initial state, before the process has been admitted
/// to the ready queue; `Ready` means admitted and waiting for its turn;
/// `Finished` is terminal and means the burst has been fully consumed.
#[derive(Clone, Copy, PartialEq, Eq, Structural, Debug)]
pub enum ProcessState {
    NotInSystem,
    Ready,
    Finished,
}

/// One schedulable unit of work.
///
/// `pid` is the process's position in the dispatcher's process list;
/// `arrival_time` is the tick at which it becomes eligible to run;
/// `burst_time` is the total number of CPU ticks it needs; `priority` is
/// carried but unused by round robin scheduling. `progress` counts the ticks
/// consumed so far, `state` is the lifecycle state, and `exit_time` is the
/// tick at which `progress` first reached `burst_time` (unset until then).
#[derive(Clone, Copy, Debug)]
pub struct Process {
    pub pid: usize,
    pub arrival_time: usize,
    pub burst_time: usize,
    pub priority: usize,
    pub exit_time: Option<usize>,
    pub state: ProcessState,
    pub progress: usize,
}

/// Mathematical model of a `Process`, with unbounded integers.
#[verifier::ext_equal]
pub struct ProcessModel {
    pub pid: nat,
    pub arrival: nat,
    pub burst: nat,
    pub priority: nat,
    pub exit: Option<nat>,
    pub state: ProcessState,
    pub progress: nat,
}

/// Two records are the same process exactly when their ids agree,
/// regardless of the other fields.
impl PartialEq for Process {
    fn eq(&self, other: &Process) -> bool {
        self.pid == other.pid
    }
}

impl vstd::std_specs::cmp::PartialEqSpecImpl for Process {
    open spec fn obeys_eq_spec() -> bool {
        true
    }

    open spec fn eq_spec(&self, other: &Process) -> bool {
        self.pid == other.pid
    }
}

impl View for Process {
    type V = ProcessModel;

    open spec fn view(&self) -> ProcessModel {
        ProcessModel {
            pid: self.pid as nat,
            arrival: self.arrival_time as nat,
            burst: self.burst_time as nat,
            priority: self.priority as nat,
            exit: match self.exit_time {
                Some(e) => Some(e as nat),
                None => None,
            },
            state: self.state,
            progress: self.progress as nat,
        }
    }
}

/// A set `exit_time` is consistent with the scheduling invariants: the
/// process cannot have completed earlier than `arrival_time + burst_time`.
pub open spec fn exit_consistent(p: ProcessModel) -> bool {
    match p.exit {
        Some(e) => e >= p.arrival + p.burst,
        None => true,
    }
}

/// Turnaround time as a mathematical value: time from arrival to exit,
/// available only once `exit_time` is set.
pub open spec fn spec_turnaround_time(p: ProcessModel) -> Option<int> {
    match p.exit {
        Some(e) => Some(e - p.arrival),
        None => None,
    }
}

/// Wait time as a mathematical value: turnaround time minus burst time,
/// available only once `exit_time` is set.
pub open spec fn spec_wait_time(p: ProcessModel) -> Option<int> {
    match p.exit {
        Some(e) => Some(e - p.arrival - p.burst),
        None => None,
    }
}

impl Process {
    /// Constructs a process that has not yet entered the system: no progress,
    /// no exit time, lifecycle state `NotInSystem`.
    pub fn new(pid: usize, arrival_time: usize, burst_time: usize, priority: usize) -> (p: Process)
        ensures
            p.pid == pid,
            p.arrival_time == arrival_time,
            p.burst_time == burst_time,
            p.priority == priority,
            p.exit_time is None,
            p.state == ProcessState::NotInSystem,
            p.progress == 0,
    {
        Process {
            pid,
            arrival_time,
            burst_time,
            priority,
            exit_time: None,
            state: ProcessState::NotInSystem,
            progress: 0,
        }
    }

    /// Consumes up to `ticks` ticks of work: progress advances by `ticks`,
    /// clamped at `burst_time`; on reaching the full burst the process
    /// transitions to `Finished`. Returns the new progress. Zero ticks is a
    /// no-op (except that a process whose burst is already consumed still
    /// transitions to `Finished`).
    pub fn run_for(&mut self, ticks: usize) -> (new_progress: usize)
        requires
            old(self).progress <= old(self).burst_time,
        ensures
            final(self).pid == old(self).pid,
            final(self).arrival_time == old(self).arrival_time,
            final(self).burst_time == old(self).burst_time,
            final(self).priority == old(self).priority,
            final(self).exit_time == old(self).exit_time,
            old(self).progress + ticks >= old(self).burst_time ==> {
                &&& final(self).progress == old(self).burst_time
                &&& final(self).state == ProcessState::Finished
            },
            old(self).progress + ticks < old(self).burst_time ==> {
                &&& final(self).progress == old(self).progress + ticks
                &&& final(self).state == old(self).state
            },
            new_progress == final(self).progress,
    {
        if ticks >= self.burst_time - self.progress {
            self.progress = self.burst_time;
            self.state = ProcessState::Finished;
        } else {
            self.progress = self.progress + ticks;
        }
        self.progress
    }

    /// Remaining work: `burst_time - progress`.
    pub fn time_to_complete(&self) -> (r: usize)
        requires
            self.progress <= self.burst_time,
        ensures
            r == self.burst_time - self.progress,
    {
        self.burst_time - self.progress
    }

    /// Turnaround time (`exit_time - arrival_time`), or `None` while
    /// `exit_time` is unset.
    pub fn turnaround_time(&self) -> (r: Option<usize>)
        requires
            exit_consistent(self@),
        ensures
            r == match self.exit_time {
                Some(e) => Some((e - self.arrival_time) as usize),
                None => None::<usize>,
            },
    {
        match self.exit_time {
            Some(e) => Some(e - self.arrival_time),
            None => None,
        }
    }

    /// Wait time (`turnaround_time - burst_time`), or `None` while
    /// `exit_time` is unset.
    pub fn wait_time(&self) -> (r: Option<usize>)
        requires
            exit_consistent(self@),
        ensures
            r == match self.exit_time {
                Some(e) => Some((e - self.arrival_time - self.burst_time) as usize),
                None => None::<usize>,
            },
    {
        match self.exit_time {
            Some(e) => Some(e - self.arrival_time - self.burst_time),
            None => None,
        }
    }
}

/// Turnaround time contributed by one process to the aggregate (zero while
/// its exit time is unset).
pub open spec fn tat_weight(p: ProcessModel) -> int {
    match p.exit {
        Some(e) => e - p.arrival,
        None => 0,
    }
}

/// Wait time contributed by one process to the aggregate (zero while its
/// exit time is unset).
pub open spec fn wait_weight(p: ProcessModel) -> int {
    match p.exit {
        Some(e) => e - p.arrival - p.burst,
        None => 0,
    }
}

/// Total turnaround time of the processes from index `i` on.
pub open spec fn total_turnaround_from(s: Seq<ProcessModel>, i: int) -> int
    decreases s.len() - i,
{
    if i < 0 || i >= s.len() {
        0
    } else {
        tat_weight(s[i]) + total_turnaround_from(s, i + 1)
    }
}

/// Total turnaround time of a process list.
pub open spec fn total_turnaround(s: Seq<ProcessModel>) -> int {
    total_turnaround_from(s, 0)
}

/// Total wait time of the processes from index `i` on.
pub open spec fn total_wait_from(s: Seq<ProcessModel>, i: int) -> int
    decreases s.len() - i,
{
    if i < 0 || i >= s.len() {
        0
    } else {
        wait_weight(s[i]) + total_wait_from(s, i + 1)
    }
}

/// Total wait time of a process list.
pub open spec fn total_wait(s: Seq<ProcessModel>) -> int {
    total_wait_from(s, 0)
}

pub proof fn lemma_totals_nonneg(s: Seq<ProcessModel>, i: int)
    requires
        0 <= i <= s.len(),
        forall|k: int|
            0 <= k < s.len() ==> (#[trigger] s[k]).exit is Some && exit_consistent(s[k]),
    ensures
        0 <= total_wait_from(s, i),
        total_wait_from(s, i) <= total_turnaround_from(s, i),
    decreases s.len() - i,
{
    if i < s.len() {
        lemma_totals_nonneg(s, i + 1);
    }
}

pub proof fn lemma_totals_bounded(s: Seq<ProcessModel>, i: int, b: int)
    requires
        0 <= i <= s.len(),
        b >= 0,
        forall|k: int|
            0 <= k < s.len() ==> (#[trigger] s[k]).exit is Some && exit_consistent(s[k])
                && tat_weight(s[k]) <= b,
    ensures
        0 <= total_wait_from(s, i),
        total_wait_from(s, i) <= total_turnaround_from(s, i),
        total_turnaround_from(s, i) <= (s.len() - i) * b,
    decreases s.len() - i,
{
    if i < s.len() {
        lemma_totals_bounded(s, i + 1, b);
        assert((s.len() - i) * b == (s.len() - i - 1) * b + b) by (nonlinear_arith);
    }
}

/// The aggregate output of a run: total wait and turnaround time over all
/// processes, the process count the averages are taken over, and the
/// (optionally compacted) Gantt chart.
#[derive(Clone, PartialEq, Eq, Debug)]
pub struct SchedulerResult {
    pub total_wait_time: usize,
    pub total_turnaround_time: usize,
    pub process_count: usize,
    pub gantt: Vec<GanttNode>,
}

/// Mathematical model of a `SchedulerResult`.
#[verifier::ext_equal]
pub struct ResultModel {
    pub total_wait: int,
    pub total_turnaround: int,
    pub count: nat,
    pub gantt: Seq<IntervalModel>,
}

impl View for SchedulerResult {
    type V = ResultModel;

    open spec fn view(&self) -> ResultModel {
        ResultModel {
            total_wait: self.total_wait_time as int,
            total_turnaround: self.total_turnaround_time as int,
            count: self.process_count as nat,
            gantt: chart_view(self.gantt@),
        }
    }
}

impl Process {
    /// Aggregates the final process states and the accumulated Gantt chart
    /// into a `SchedulerResult`: the totals are the sums of the per-process
    /// turnaround and wait times.
    pub fn compute_result(processes: &Vec<Process>, chart: Vec<GanttNode>) -> (r: SchedulerResult)
        requires
            forall|k: int|
                0 <= k < processes@.len() ==> (#[trigger] processes@[k]@).exit is Some
                    && exit_consistent(processes@[k]@),
            total_turnaround(crate::model::procs_view(processes@)) <= usize::MAX,
        ensures
            r@ == (ResultModel {
                total_wait: total_wait(crate::model::procs_view(processes@)),
                total_turnaround: total_turnaround(crate::model::procs_view(processes@)),
                count: processes@.len() as nat,
                gantt: chart_view(chart@),
            }),
    {
        let ghost pv = crate::model::procs_view(processes@);
        let mut total_turnaround_time: usize = 0;
        let mut total_wait_time: usize = 0;
        let mut i: usize = 0;
        proof {
            assert(forall|k: int| 0 <= k < pv.len() ==> #[trigger] pv[k] == processes@[k]@);
            lemma_totals_nonneg(pv, 0);
        }
        while i < processes.len()
            invariant
                i <= processes@.len(),
                pv == crate::model::procs_view(processes@),
                pv.len() == processes@.len(),
                forall|k: int| 0 <= k < pv.len() ==> #[trigger] pv[k] == processes@[k]@,
                forall|k: int|
                    0 <= k < pv.len() ==> (#[trigger] pv[k]).exit is Some && exit_consistent(
                        pv[k],
                    ),
                total_turnaround(pv) <= usize::MAX,
                total_turnaround_time + total_turnaround_from(pv, i as int) == total_turnaround(
                    pv,
                ),
                total_wait_time + total_wait_from(pv, i as int) == total_wait(pv),
                total_wait_time <= total_turnaround_time,
            decreases processes@.len() - i,
        {
            proof {
                lemma_totals_nonneg(pv, i as int);
                lemma_totals_nonneg(pv, i + 1);
            }
            let t = processes[i].turnaround_time().unwrap();
            let w = processes[i].wait_time().unwrap();
            proof {
                assert(pv[i as int] == processes@[i as int]@);
                assert(t == tat_weight(pv[i as int]));
                assert(w == wait_weight(pv[i as int]));
            }
            total_turnaround_time = total_turnaround_time + t;
            total_wait_time = total_wait_time + w;
            i = i + 1;
        }
        SchedulerResult { total_wait_time, total_turnaround_time, process_count: processes.len(), gantt: chart }
    }
}

/// The derived values are pure functions of fields that never change again
/// once a process is finished: two processes that agree on `exit_time`,
/// `arrival_time` and `burst_time` have identical turnaround and wait times,
/// so computing them twice on a finished process yields identical results.
pub proof fn lemma_derived_values_pure(p: Process, q: Process)
    requires
        p.exit_time == q.exit_time,
        p.arrival_time == q.arrival_time,
        p.burst_time == q.burst_time,
    ensures
        spec_turnaround_time(p@) == spec_turnaround_time(q@),
        spec_wait_time(p@) == spec_wait_time(q@),
{
}

} // verus!
