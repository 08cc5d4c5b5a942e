//! The mathematical model of a round robin run: a recursive interpreter of
//! the scheduling loop over process models, together with the laws that hold
//! of every completed run.

use vstd::prelude::*;

use crate::gantt::IntervalModel;
use crate::process::{Process, ProcessModel, ProcessState};

verus! {

/// The view of a whole process list.
pub open spec fn procs_view(s: Seq<Process>) -> Seq<ProcessModel> {
    s.map_values(|p: Process| p@)
}

/// Remaining work of one process (zero once the burst is consumed).
pub open spec fn rem(p: ProcessModel) -> nat {
    if p.progress <= p.burst {
        (p.burst - p.progress) as nat
    } else {
        0
    }
}

/// Total remaining work of the processes from index `i` on.
pub open spec fn total_rem_from(s: Seq<ProcessModel>, i: int) -> nat
    decreases s.len() - i,
{
    if i < 0 || i >= s.len() {
        0
    } else {
        rem(s[i]) + total_rem_from(s, i + 1)
    }
}

/// Total remaining work of a process list.
pub open spec fn total_rem(s: Seq<ProcessModel>) -> nat {
    total_rem_from(s, 0)
}

/// Total burst time of the processes from index `i` on.
pub open spec fn total_burst_from(s: Seq<ProcessModel>, i: int) -> nat
    decreases s.len() - i,
{
    if i < 0 || i >= s.len() {
        0
    } else {
        s[i].burst + total_burst_from(s, i + 1)
    }
}

/// Total burst time of a process list.
pub open spec fn total_burst(s: Seq<ProcessModel>) -> nat {
    total_burst_from(s, 0)
}

/// 1 for a process that has not entered the system yet, 0 otherwise.
pub open spec fn nis_weight(p: ProcessModel) -> nat {
    if p.state == ProcessState::NotInSystem {
        1
    } else {
        0
    }
}

/// How many processes from index `i` on have not entered the system yet.
pub open spec fn count_nis_from(s: Seq<ProcessModel>, i: int) -> nat
    decreases s.len() - i,
{
    if i < 0 || i >= s.len() {
        0
    } else {
        nis_weight(s[i]) + count_nis_from(s, i + 1)
    }
}

/// How many processes of a list have not entered the system yet.
pub open spec fn count_nis(s: Seq<ProcessModel>) -> nat {
    count_nis_from(s, 0)
}

/// A process is admissible at `tick` if it has not entered the system yet
/// and its arrival time has been reached.
pub open spec fn admissible(p: ProcessModel, tick: nat) -> bool {
    p.state == ProcessState::NotInSystem && p.arrival <= tick
}

/// The arrival scan's effect on the process states: every admissible
/// process becomes `Ready`.
pub open spec fn admit_states(s: Seq<ProcessModel>, tick: nat) -> Seq<ProcessModel> {
    s.map_values(
        |p: ProcessModel|
            if admissible(p, tick) {
                ProcessModel { state: ProcessState::Ready, ..p }
            } else {
                p
            },
    )
}

/// The ids the arrival scan appends to the admission queue, scanning the
/// process list in order from index `i` on.
pub open spec fn admitted_pids_from(s: Seq<ProcessModel>, tick: nat, i: int) -> Seq<nat>
    decreases s.len() - i,
{
    if i < 0 || i >= s.len() {
        Seq::empty()
    } else if admissible(s[i], tick) {
        seq![s[i].pid] + admitted_pids_from(s, tick, i + 1)
    } else {
        admitted_pids_from(s, tick, i + 1)
    }
}

/// The ids the arrival scan appends to the admission queue, in process-list
/// order.
pub open spec fn admitted_pids(s: Seq<ProcessModel>, tick: nat) -> Seq<nat> {
    admitted_pids_from(s, tick, 0)
}

pub proof fn lemma_total_rem_from_update(s: Seq<ProcessModel>, j: int, p: ProcessModel, i: int)
    requires
        0 <= j < s.len(),
        0 <= i <= s.len(),
    ensures
        total_rem_from(s.update(j, p), i) == if i <= j {
            total_rem_from(s, i) - rem(s[j]) + rem(p)
        } else {
            total_rem_from(s, i) as int
        },
    decreases s.len() - i,
{
    if i < s.len() {
        lemma_total_rem_from_update(s, j, p, i + 1);
    }
}

pub proof fn lemma_total_rem_update(s: Seq<ProcessModel>, j: int, p: ProcessModel)
    requires
        0 <= j < s.len(),
    ensures
        total_rem(s.update(j, p)) == total_rem(s) - rem(s[j]) + rem(p),
{
    lemma_total_rem_from_update(s, j, p, 0);
}

pub proof fn lemma_count_nis_from_update(s: Seq<ProcessModel>, j: int, p: ProcessModel, i: int)
    requires
        0 <= j < s.len(),
        0 <= i <= s.len(),
    ensures
        count_nis_from(s.update(j, p), i) == if i <= j {
            count_nis_from(s, i) - nis_weight(s[j]) + nis_weight(p)
        } else {
            count_nis_from(s, i) as int
        },
    decreases s.len() - i,
{
    if i < s.len() {
        lemma_count_nis_from_update(s, j, p, i + 1);
    }
}

pub proof fn lemma_rem_admit_from(s: Seq<ProcessModel>, tick: nat, i: int)
    requires
        0 <= i <= s.len(),
    ensures
        total_rem_from(admit_states(s, tick), i) == total_rem_from(s, i),
    decreases s.len() - i,
{
    if i < s.len() {
        lemma_rem_admit_from(s, tick, i + 1);
    }
}

pub proof fn lemma_counts_admit_from(s: Seq<ProcessModel>, tick: nat, i: int)
    requires
        0 <= i <= s.len(),
    ensures
        count_nis_from(admit_states(s, tick), i) + admitted_pids_from(s, tick, i).len()
            == count_nis_from(s, i),
    decreases s.len() - i,
{
    if i < s.len() {
        lemma_counts_admit_from(s, tick, i + 1);
    }
}

/// The outcome of a simulation: either every process finished, with the
/// final process states, the Gantt chart and the final tick; or the
/// admission queue ran empty while unfinished processes remained (every
/// remaining process had a still-future arrival time), with the process
/// states at that point.
pub enum SimOutcome {
    Done { procs: Seq<ProcessModel>, gantt: Seq<IntervalModel>, tick: nat },
    Stalled { procs: Seq<ProcessModel> },
}

/// Every process of the list is finished.
pub open spec fn all_finished(s: Seq<ProcessModel>) -> bool {
    forall|i: int| 0 <= i < s.len() ==> s[i].state == ProcessState::Finished
}

/// The deferred re-admission slot as a sequence (empty or one id).
pub open spec fn last_seq(last: Option<nat>) -> Seq<nat> {
    match last {
        Some(lp) => seq![lp],
        None => Seq::empty(),
    }
}

pub open spec fn last_count(last: Option<nat>) -> nat {
    match last {
        Some(_) => 1,
        None => 0,
    }
}

/// How many ticks one scheduling decision consumes: a full quantum, or the
/// process's remaining work if that is smaller (it then finishes
/// mid-quantum).
pub open spec fn step_consumed(p: ProcessModel, quantum: nat) -> nat {
    if rem(p) <= quantum {
        rem(p)
    } else {
        quantum
    }
}

/// One scheduling decision's effect on the chosen process: progress
/// advances by the consumed ticks, clamped at the burst; on reaching the
/// full burst the process finishes and its exit time is the tick at the end
/// of the (possibly partial) quantum.
pub open spec fn run_process(p: ProcessModel, quantum: nat, tick: nat) -> ProcessModel {
    let c = step_consumed(p, quantum);
    if p.progress + c >= p.burst {
        ProcessModel {
            progress: p.burst,
            state: ProcessState::Finished,
            exit: Some((tick + c) as nat),
            ..p
        }
    } else {
        ProcessModel {
            progress: (p.progress + c) as nat,
            state: ProcessState::Ready,
            ..p
        }
    }
}

/// The round robin scheduling loop, as a function of the simulation state.
///
/// While an unfinished process remains: admit every process whose arrival
/// time has been reached (in process-list order), then re-admit the process
/// held in the deferred slot `last` behind them, then pop the front of the
/// admission queue and run it for up to one quantum; simulated time
/// advances by the ticks actually consumed and the executed interval is
/// appended to the Gantt chart. A process that did not finish goes into the
/// deferred slot instead of straight back into the queue.
pub open spec fn sim(
    procs: Seq<ProcessModel>,
    quantum: nat,
    tick: nat,
    queue: Seq<nat>,
    last: Option<nat>,
    gantt: Seq<IntervalModel>,
) -> SimOutcome
    decreases total_rem(procs), queue.len() + count_nis(procs) + last_count(last),
        when quantum >= 1
        via sim_decreases
{
    if all_finished(procs) {
        SimOutcome::Done { procs, gantt, tick }
    } else {
        let procs1 = admit_states(procs, tick);
        let queue2 = queue + admitted_pids(procs, tick) + last_seq(last);
        if queue2.len() == 0 {
            SimOutcome::Stalled { procs: procs1 }
        } else {
            let pid = queue2[0];
            if pid >= procs1.len() {
                // An id that names no process is the same bookkeeping
                // violation as an empty queue; it cannot arise from a
                // process list whose ids are its positions.
                SimOutcome::Stalled { procs: procs1 }
            } else {
                let p = procs1[pid as int];
                let c = step_consumed(p, quantum);
                let p2 = run_process(p, quantum, tick);
                let procs2 = procs1.update(pid as int, p2);
                let node = IntervalModel { pid: pid, start: tick, end: tick + c };
                let last2 = if p2.state == ProcessState::Finished {
                    None
                } else {
                    Some(pid)
                };
                sim(procs2, quantum, tick + c, queue2.drop_first(), last2, gantt.push(node))
            }
        }
    }
}

#[via_fn]
proof fn sim_decreases(
    procs: Seq<ProcessModel>,
    quantum: nat,
    tick: nat,
    queue: Seq<nat>,
    last: Option<nat>,
    gantt: Seq<IntervalModel>,
) {
    if !all_finished(procs) {
        let procs1 = admit_states(procs, tick);
        let queue2 = queue + admitted_pids(procs, tick) + last_seq(last);
        if queue2.len() > 0 {
            let pid = queue2[0];
            if pid < procs1.len() {
                let p = procs1[pid as int];
                let c = step_consumed(p, quantum);
                let p2 = run_process(p, quantum, tick);
                lemma_rem_admit_from(procs, tick, 0);
                lemma_counts_admit_from(procs, tick, 0);
                lemma_total_rem_update(procs1, pid as int, p2);
                lemma_count_nis_from_update(procs1, pid as int, p2, 0);
                assert(rem(p2) == rem(p) - c);
                assert(nis_weight(p2) == 0);
            }
        }
    }
}

/// The whole simulation, from tick 0 with an empty admission queue.
pub open spec fn spec_run(procs: Seq<ProcessModel>, quantum: nat) -> SimOutcome {
    sim(procs, quantum, 0, Seq::empty(), None, Seq::empty())
}

/// A process list as handed to a fresh run: each id is the process's
/// position in the list, and no process has entered the system or made
/// progress yet.
pub open spec fn fresh_process_list(s: Seq<ProcessModel>) -> bool {
    forall|i: int| 0 <= i < s.len() ==> {
        &&& s[i].pid == i
        &&& s[i].state == ProcessState::NotInSystem
        &&& s[i].progress == 0
        &&& s[i].exit is None
    }
}

pub proof fn lemma_fresh_total_rem(s: Seq<ProcessModel>, i: int)
    requires
        fresh_process_list(s),
        0 <= i <= s.len(),
    ensures
        total_rem_from(s, i) == total_burst_from(s, i),
    decreases s.len() - i,
{
    if i < s.len() {
        lemma_fresh_total_rem(s, i + 1);
    }
}

pub proof fn lemma_total_rem_from_zero(s: Seq<ProcessModel>, i: int)
    requires
        0 <= i <= s.len(),
        forall|k: int| i <= k < s.len() ==> rem(#[trigger] s[k]) == 0,
    ensures
        total_rem_from(s, i) == 0,
    decreases s.len() - i,
{
    if i < s.len() {
        lemma_total_rem_from_zero(s, i + 1);
    }
}

/// The well-formedness of one process within a running simulation whose
/// clock stands at `tick`, at position `i` of the process list.
pub open spec fn wf_proc(p: ProcessModel, i: int, tick: nat) -> bool {
    &&& p.pid == i
    &&& p.progress <= p.burst
    &&& (p.state == ProcessState::NotInSystem ==> p.progress == 0)
    &&& (p.state != ProcessState::NotInSystem ==> p.arrival + p.progress <= tick)
    &&& (p.state == ProcessState::Ready && p.burst > 0 ==> p.progress < p.burst)
    &&& (p.state == ProcessState::Finished ==> p.progress == p.burst && match p.exit {
        Some(e) => p.arrival + p.burst <= e <= tick,
        None => false,
    })
}

/// The well-formedness of the admission queue: it holds ids of `Ready`
/// processes, each at most once.
pub open spec fn wf_queue(procs: Seq<ProcessModel>, queue: Seq<nat>) -> bool {
    &&& forall|j: int|
        0 <= j < queue.len() ==> (#[trigger] queue[j]) < procs.len()
            && procs[queue[j] as int].state == ProcessState::Ready
    &&& forall|j: int, k: int| 0 <= j < k < queue.len() ==> queue[j] != queue[k]
}

/// The well-formedness of a whole simulation state.
pub open spec fn wf_sim_state(
    procs: Seq<ProcessModel>,
    tick: nat,
    queue: Seq<nat>,
    last: Option<nat>,
) -> bool {
    &&& forall|i: int| 0 <= i < procs.len() ==> wf_proc(#[trigger] procs[i], i, tick)
    &&& wf_queue(procs, queue)
    &&& match last {
        Some(lp) => lp < procs.len() && procs[lp as int].state == ProcessState::Ready
            && !queue.contains(lp),
        None => true,
    }
}

/// The immutable scheduling parameters of two process records agree.
pub open spec fn immut_eq(a: ProcessModel, b: ProcessModel) -> bool {
    &&& a.pid == b.pid
    &&& a.arrival == b.arrival
    &&& a.burst == b.burst
    &&& a.priority == b.priority
}

/// A run never touches the immutable scheduling parameters.
pub open spec fn immut_preserved(before: Seq<ProcessModel>, after: Seq<ProcessModel>) -> bool {
    &&& after.len() == before.len()
    &&& forall|i: int| 0 <= i < before.len() ==> immut_eq(before[i], #[trigger] after[i])
}

/// Every process whose burst is a multiple of the quantum has made progress
/// in whole quanta.
pub open spec fn aligned(s: Seq<ProcessModel>, quantum: nat) -> bool {
    forall|i: int|
        0 <= i < s.len() ==> ((#[trigger] s[i]).burst % quantum == 0 ==> s[i].progress % quantum
            == 0)
}

/// The Gantt intervals from index `from` on are contiguous: the first
/// starts at `t0`, each next one starts where the one before it ended, the
/// last ends at `t1`, and none is wider than one quantum.
pub open spec fn chained_from(
    g: Seq<IntervalModel>,
    from: int,
    t0: nat,
    t1: nat,
    quantum: nat,
) -> bool {
    &&& forall|k: int| from <= k < g.len() ==> {
        &&& (#[trigger] g[k]).start == if k == from {
            t0 as int
        } else {
            g[k - 1].end as int
        }
        &&& g[k].start <= g[k].end
        &&& g[k].end - g[k].start <= quantum
    }
    &&& g.len() > from ==> g.last().end == t1
    &&& g.len() == from ==> t0 == t1
}

pub proof fn lemma_admitted_pids_from_elems(s: Seq<ProcessModel>, tick: nat, i: int)
    requires
        0 <= i <= s.len(),
        forall|k: int| 0 <= k < s.len() ==> (#[trigger] s[k]).pid == k,
    ensures
        forall|j: int|
            0 <= j < admitted_pids_from(s, tick, i).len() ==> {
                let x = #[trigger] admitted_pids_from(s, tick, i)[j];
                &&& i <= x < s.len()
                &&& admissible(s[x as int], tick)
            },
        forall|j1: int, j2: int|
            0 <= j1 < j2 < admitted_pids_from(s, tick, i).len() ==> admitted_pids_from(
                s,
                tick,
                i,
            )[j1] != admitted_pids_from(s, tick, i)[j2],
    decreases s.len() - i,
{
    let a = admitted_pids_from(s, tick, i);
    if i < s.len() {
        lemma_admitted_pids_from_elems(s, tick, i + 1);
        let t = admitted_pids_from(s, tick, i + 1);
        if admissible(s[i], tick) {
            assert(a == seq![s[i].pid] + t);
            assert(a[0] == s[i].pid == i);
            assert(forall|j: int| 1 <= j < a.len() ==> a[j] == t[j - 1]);
            assert forall|j: int| 0 <= j < a.len() implies {
                let x = #[trigger] a[j];
                &&& i <= x < s.len()
                &&& admissible(s[x as int], tick)
            } by {
                if j >= 1 {
                    assert(a[j] == t[j - 1]);
                }
            }
            assert forall|j1: int, j2: int| 0 <= j1 < j2 < a.len() implies a[j1] != a[j2] by {
                if j1 == 0 {
                    assert(a[j2] == t[j2 - 1]);
                    assert(i + 1 <= a[j2]);
                } else {
                    assert(a[j1] == t[j1 - 1] && a[j2] == t[j2 - 1]);
                }
            }
        } else {
            assert(a == t);
        }
    }
}

/// `(a - b) % m == 0` when both operands are multiples of `m`.
proof fn lemma_mod_sub_zero(a: nat, b: nat, m: nat)
    requires
        m >= 1,
        b <= a,
        a % m == 0,
        b % m == 0,
    ensures
        ((a - b) as nat) % m == 0,
{
    vstd::arithmetic::div_mod::lemma_sub_mod_noop(a as int, b as int, m as int);
    vstd::arithmetic::div_mod::lemma_small_mod(0, m);
}

/// `(a + m) % m == a % m`.
proof fn lemma_mod_add_quantum(a: nat, m: nat)
    requires
        m >= 1,
    ensures
        (a + m) % m == a % m,
{
    vstd::arithmetic::div_mod::lemma_mod_add_multiples_vanish(a as int, m as int);
}

/// One scheduling decision preserves the simulation invariants: the chosen
/// id names a `Ready` process, the successor state is well formed, the
/// immutable parameters survive, and the consumed ticks come off the total
/// remaining work.
pub proof fn lemma_sim_step(
    procs: Seq<ProcessModel>,
    quantum: nat,
    tick: nat,
    queue: Seq<nat>,
    last: Option<nat>,
)
    requires
        quantum >= 1,
        wf_sim_state(procs, tick, queue, last),
        aligned(procs, quantum),
        !all_finished(procs),
        (queue + admitted_pids(procs, tick) + last_seq(last)).len() > 0,
    ensures
        ({
            let procs1 = admit_states(procs, tick);
            let queue2 = queue + admitted_pids(procs, tick) + last_seq(last);
            let pid = queue2[0];
            &&& pid < procs.len()
            &&& procs1[pid as int].state == ProcessState::Ready
            &&& {
                let p = procs1[pid as int];
                let c = step_consumed(p, quantum);
                let p2 = run_process(p, quantum, tick);
                let procs2 = procs1.update(pid as int, p2);
                let queue3 = queue2.drop_first();
                let last2: Option<nat> = if p2.state == ProcessState::Finished {
                    None
                } else {
                    Some(pid)
                };
                &&& wf_sim_state(procs2, (tick + c) as nat, queue3, last2)
                &&& aligned(procs2, quantum)
                &&& immut_preserved(procs, procs2)
                &&& total_rem(procs2) == total_rem(procs) - c
                &&& c <= quantum
                &&& c <= total_rem(procs)
                &&& (p.burst % quantum == 0 && p.burst > 0 ==> c == quantum)
            }
        }),
{
    let procs1 = admit_states(procs, tick);
    let queue2 = queue + admitted_pids(procs, tick) + last_seq(last);
    let pid = queue2[0];
    lemma_admitted_pids_from_elems(procs, tick, 0);

    // The popped id comes from the old queue, the arrival scan, or the
    // deferred slot; in each case it names a `Ready` process of `procs1`.
    assert(pid < procs.len() && procs1[pid as int].state == ProcessState::Ready) by {
        if queue.len() > 0 {
            assert(pid == queue[0]);
        } else if admitted_pids(procs, tick).len() > 0 {
            assert(pid == admitted_pids(procs, tick)[0]);
            assert(admissible(procs[pid as int], tick));
        } else {
            assert(pid == last_seq(last)[0]);
        }
    }

    let p = procs1[pid as int];
    let c = step_consumed(p, quantum);
    let p2 = run_process(p, quantum, tick);
    let procs2 = procs1.update(pid as int, p2);
    let queue3 = queue2.drop_first();
    let last2: Option<nat> = if p2.state == ProcessState::Finished {
        None
    } else {
        Some(pid)
    };
    let tick2 = (tick + c) as nat;

    lemma_rem_admit_from(procs, tick, 0);
    lemma_total_rem_update(procs1, pid as int, p2);
    assert(rem(procs1[pid as int]) == rem(procs[pid as int]));
    assert(rem(p2) == rem(p) - c);
    assert(total_rem(procs2) == total_rem(procs) - c);
    assert(c <= total_rem(procs)) by {
        lemma_total_rem_from_parts(procs, 0, pid as int);
    }

    // Exact multiple of the quantum: the decision consumes a whole quantum.
    if p.burst % quantum == 0 && p.burst > 0 {
        assert(p.progress % quantum == 0);
        assert(p.progress < p.burst);
        lemma_mod_sub_zero(p.burst, p.progress, quantum);
        assert(rem(p) % quantum == 0);
        if rem(p) < quantum {
            vstd::arithmetic::div_mod::lemma_small_mod(rem(p), quantum);
        }
        assert(c == quantum);
    }

    // Well-formedness of every process in the successor state.
    assert forall|i: int| 0 <= i < procs2.len() implies wf_proc(
        #[trigger] procs2[i],
        i,
        tick2,
    ) by {
        assert(wf_proc(procs[i], i, tick));
        if i != pid {
            assert(procs2[i] == procs1[i]);
        }
    }

    // Well-formedness of the successor queue and deferred slot.
    assert(forall|j: int| 0 <= j < queue3.len() ==> queue3[j] == #[trigger] queue2[j + 1]);
    assert forall|j: int|
        0 <= j < queue2.len() implies (#[trigger] queue2[j]) < procs2.len() && procs2[queue2[
        j] as int].state == ProcessState::Ready || queue2[j] == pid by {
        if j < queue.len() {
            assert(queue2[j] == queue[j]);
        } else if j < queue.len() + admitted_pids(procs, tick).len() {
            assert(queue2[j] == admitted_pids(procs, tick)[j - queue.len()]);
        } else {
            assert(queue2[j] == last_seq(last)[j - queue.len() - admitted_pids(
                procs,
                tick,
            ).len()]);
        }
    }
    // No id occurs twice in the combined queue.
    assert forall|j1: int, j2: int| 0 <= j1 < j2 < queue2.len() implies queue2[j1] != queue2[
    j2] by {
        let na = admitted_pids(procs, tick).len() as int;
        let nq = queue.len() as int;
        if j2 < nq {
        } else if j2 < nq + na {
            if j1 < nq {
                assert(queue2[j1] == queue[j1]);
                assert(queue2[j2] == admitted_pids(procs, tick)[j2 - nq]);
                assert(procs[queue2[j1] as int].state == ProcessState::Ready);
                assert(admissible(procs[queue2[j2] as int], tick));
            } else {
                assert(queue2[j1] == admitted_pids(procs, tick)[j1 - nq]);
                assert(queue2[j2] == admitted_pids(procs, tick)[j2 - nq]);
            }
        } else {
            let lp = queue2[j2];
            assert(lp == last_seq(last)[0]);
            assert(last == Some(lp));
            if j1 < nq {
                assert(queue2[j1] == queue[j1]);
                assert(!queue.contains(lp));
            } else {
                assert(queue2[j1] == admitted_pids(procs, tick)[j1 - nq]);
                assert(admissible(procs[queue2[j1] as int], tick));
                assert(procs[lp as int].state == ProcessState::Ready);
            }
        }
    }
    assert(wf_queue(procs2, queue3));
    match last2 {
        Some(lp) => {
            assert(lp == pid);
            assert(!queue3.contains(lp)) by {
                assert forall|j: int| 0 <= j < queue3.len() implies queue3[j] != lp by {
                    assert(queue3[j] == queue2[j + 1]);
                    assert(queue2[0] == pid);
                }
            }
            assert(procs2[lp as int].state == ProcessState::Ready);
        },
        None => {},
    }
    assert(wf_sim_state(procs2, tick2, queue3, last2));

    // Progress stays aligned to the quantum.
    assert forall|i: int|
        0 <= i < procs2.len() implies ((#[trigger] procs2[i]).burst % quantum == 0
        ==> procs2[i].progress % quantum == 0) by {
        if i != pid {
            assert(procs2[i] == procs1[i]);
            assert(procs1[i].progress == procs[i].progress && procs1[i].burst == procs[i].burst);
        } else {
            if p.burst % quantum == 0 {
                if p2.state == ProcessState::Finished {
                    assert(p2.progress == p.burst);
                } else {
                    assert(c == quantum) by {
                        if rem(p) <= quantum {
                            assert(p.progress + c >= p.burst);
                        }
                    }
                    assert(p2.progress == p.progress + quantum);
                    assert(p.progress % quantum == 0);
                    lemma_mod_add_quantum(p.progress, quantum);
                }
            }
        }
    }
    assert(immut_preserved(procs, procs2));
}

/// The tail sum from `i` splits at any position `j` between `i` and the end.
pub proof fn lemma_total_rem_from_parts(s: Seq<ProcessModel>, i: int, j: int)
    requires
        0 <= i <= j < s.len(),
    ensures
        total_rem_from(s, i) >= rem(s[j]),
    decreases j - i,
{
    if i < j {
        lemma_total_rem_from_parts(s, i + 1, j);
    }
}

/// The facts that hold of every simulation outcome, proved by induction
/// over the scheduling loop: conservation of work, contiguity of the Gantt
/// chart, preservation of the immutable parameters, and the completion
/// invariants of every finished process.
#[verifier::rlimit(60)]
pub proof fn lemma_sim_invariants(
    procs: Seq<ProcessModel>,
    quantum: nat,
    tick: nat,
    queue: Seq<nat>,
    last: Option<nat>,
    gantt: Seq<IntervalModel>,
)
    requires
        quantum >= 1,
        wf_sim_state(procs, tick, queue, last),
        aligned(procs, quantum),
    ensures
        match sim(procs, quantum, tick, queue, last, gantt) {
            SimOutcome::Done { procs: fp, gantt: fg, tick: ft } => {
                &&& immut_preserved(procs, fp)
                &&& all_finished(fp)
                &&& forall|i: int| 0 <= i < fp.len() ==> wf_proc(#[trigger] fp[i], i, ft)
                &&& ft == tick + total_rem(procs)
                &&& fg.len() >= gantt.len()
                &&& fg.take(gantt.len() as int) == gantt
                &&& crate::gantt::sum_durations(fg) == crate::gantt::sum_durations(gantt)
                    + total_rem(procs)
                &&& chained_from(fg, gantt.len() as int, tick, ft, quantum)
                &&& forall|k: int|
                    gantt.len() <= k < fg.len() ==> {
                        let x = (#[trigger] fg[k]).pid;
                        &&& x < procs.len()
                        &&& (procs[x as int].burst % quantum == 0 && procs[x as int].burst > 0
                            ==> fg[k].end - fg[k].start == quantum)
                    }
            },
            SimOutcome::Stalled { procs: sp } => immut_preserved(procs, sp),
        },
    decreases total_rem(procs), queue.len() + count_nis(procs) + last_count(last),
{
    if all_finished(procs) {
        assert(forall|k: int| 0 <= k < procs.len() ==> rem(#[trigger] procs[k]) == 0);
        lemma_total_rem_from_zero(procs, 0);
        assert(gantt.take(gantt.len() as int) =~= gantt);
    } else {
        let procs1 = admit_states(procs, tick);
        let queue2 = queue + admitted_pids(procs, tick) + last_seq(last);
        lemma_rem_admit_from(procs, tick, 0);
        lemma_counts_admit_from(procs, tick, 0);
        if queue2.len() == 0 {
            assert(immut_preserved(procs, procs1));
        } else {
            let pid = queue2[0];
            lemma_sim_step(procs, quantum, tick, queue, last);
            let p = procs1[pid as int];
            let c = step_consumed(p, quantum);
            let p2 = run_process(p, quantum, tick);
            let procs2 = procs1.update(pid as int, p2);
            let node = IntervalModel { pid: pid, start: tick, end: tick + c };
            let last2: Option<nat> = if p2.state == ProcessState::Finished {
                None
            } else {
                Some(pid)
            };
            let tick2 = (tick + c) as nat;
            let queue3 = queue2.drop_first();
            let gantt2 = gantt.push(node);

            lemma_count_nis_from_update(procs1, pid as int, p2, 0);
            assert(nis_weight(procs1[pid as int]) == 0);
            assert(nis_weight(p2) == 0);
            if c == 0 {
                assert(rem(p) == 0);
                assert(p.progress + c >= p.burst);
                assert(last2 is None);
            }

            lemma_sim_invariants(procs2, quantum, tick2, queue3, last2, gantt2);

            match sim(procs2, quantum, tick2, queue3, last2, gantt2) {
                SimOutcome::Done { procs: fp, gantt: fg, tick: ft } => {
                    assert(sim(procs, quantum, tick, queue, last, gantt) == SimOutcome::Done {
                        procs: fp,
                        gantt: fg,
                        tick: ft,
                    });
                    assert(immut_preserved(procs, fp)) by {
                        assert(immut_preserved(procs, procs2));
                    }
                    assert(ft == tick + total_rem(procs));
                    assert(fg.take(gantt2.len() as int) == gantt2);
                    assert(fg[gantt.len() as int] == gantt2[gantt.len() as int]) by {
                        assert(fg.take(gantt2.len() as int)[gantt.len() as int] == fg[gantt.len()
                            as int]);
                    }
                    assert(fg[gantt.len() as int] == node);
                    assert(fg.take(gantt.len() as int) =~= gantt) by {
                        assert(forall|k: int|
                            0 <= k < gantt.len() ==> fg.take(gantt2.len() as int)[k] == fg[k]);
                        assert(forall|k: int|
                            0 <= k < gantt.len() ==> #[trigger] gantt2[k] == gantt[k]);
                    }
                    assert(crate::gantt::sum_durations(gantt2) == crate::gantt::sum_durations(
                        gantt,
                    ) + c) by {
                        assert(gantt2.drop_last() =~= gantt);
                        assert(gantt2.last() == node);
                    }
                    assert(chained_from(fg, gantt.len() as int, tick, ft, quantum)) by {
                        if fg.len() > gantt2.len() {
                            assert(fg[gantt2.len() as int].start == tick2);
                        }
                        assert(fg.len() > gantt.len());
                        if fg.len() == gantt2.len() {
                            assert(fg.last() == node);
                            assert(tick2 == ft);
                        }
                    }
                    assert forall|k: int| gantt.len() <= k < fg.len() implies {
                        let x = (#[trigger] fg[k]).pid;
                        &&& x < procs.len()
                        &&& (procs[x as int].burst % quantum == 0 && procs[x as int].burst > 0
                            ==> fg[k].end - fg[k].start == quantum)
                    } by {
                        assert(forall|i: int|
                            0 <= i < procs.len() ==> (#[trigger] procs2[i]).burst == procs[i].burst
                                && procs2[i].pid == procs[i].pid);
                        if k == gantt.len() {
                            assert(fg[k] == node);
                            assert(p.pid == pid);
                            assert(p.burst == procs[pid as int].burst);
                        } else {
                            let x = fg[k].pid;
                            assert(x < procs2.len());
                            assert(procs2[x as int].burst == procs[x as int].burst);
                        }
                    }
                },
                SimOutcome::Stalled { procs: sp } => {
                    assert(immut_preserved(procs, procs2));
                    assert(immut_preserved(procs, sp));
                },
            }
        }
    }
}

/// CONSERVATION: over a completed run, the sum of the Gantt interval
/// durations equals the sum of all processes' burst times, the final tick
/// equals that same sum, and the intervals tile the timeline from tick 0
/// with no gaps and no overlaps.
pub proof fn lemma_conservation(procs: Seq<ProcessModel>, quantum: nat)
    requires
        quantum >= 1,
        fresh_process_list(procs),
        spec_run(procs, quantum) is Done,
    ensures
        match spec_run(procs, quantum) {
            SimOutcome::Done { procs: fp, gantt: fg, tick: ft } => {
                &&& ft == total_burst(procs)
                &&& crate::gantt::sum_durations(fg) == total_burst(procs)
                &&& crate::gantt::sum_durations(crate::gantt::spec_compact(fg)) == total_burst(
                    procs,
                )
                &&& chained_from(fg, 0, 0, ft, quantum)
            },
            SimOutcome::Stalled { .. } => true,
        },
{
    lemma_fresh_run_invariants(procs, quantum);
    match spec_run(procs, quantum) {
        SimOutcome::Done { procs: fp, gantt: fg, tick: ft } => {
            assert(crate::gantt::contiguous(fg));
            crate::gantt::lemma_compact_preserves_durations(fg);
        },
        SimOutcome::Stalled { .. } => {},
    }
}

/// NON-NEGATIVITY: every process of a completed run has an exit time of at
/// least `arrival + burst`, so its turnaround time is at least its burst
/// time and its wait time is at least zero.
pub proof fn lemma_non_negativity(procs: Seq<ProcessModel>, quantum: nat)
    requires
        quantum >= 1,
        fresh_process_list(procs),
        spec_run(procs, quantum) is Done,
    ensures
        match spec_run(procs, quantum) {
            SimOutcome::Done { procs: fp, .. } => {
                &&& immut_preserved(procs, fp)
                &&& forall|i: int|
                    0 <= i < fp.len() ==> match (#[trigger] fp[i]).exit {
                        Some(e) => e >= fp[i].arrival + fp[i].burst,
                        None => false,
                    }
                &&& forall|i: int|
                    0 <= i < fp.len() ==> match crate::process::spec_turnaround_time(
                        #[trigger] fp[i],
                    ) {
                        Some(t) => t >= fp[i].burst,
                        None => false,
                    }
                &&& forall|i: int|
                    0 <= i < fp.len() ==> match crate::process::spec_wait_time(#[trigger] fp[i]) {
                        Some(w) => w >= 0,
                        None => false,
                    }
            },
            SimOutcome::Stalled { .. } => true,
        },
{
    lemma_fresh_run_invariants(procs, quantum);
}

/// EXACT MULTIPLE: in a completed run, every Gantt interval of a process
/// whose burst time is an exact (positive) multiple of the quantum is a
/// whole quantum wide — in particular its final interval ends exactly at
/// its exit time with no partial tick.
pub proof fn lemma_exact_multiple(procs: Seq<ProcessModel>, quantum: nat)
    requires
        quantum >= 1,
        fresh_process_list(procs),
        spec_run(procs, quantum) is Done,
    ensures
        match spec_run(procs, quantum) {
            SimOutcome::Done { gantt: fg, .. } => forall|k: int|
                0 <= k < fg.len() ==> {
                    let x = (#[trigger] fg[k]).pid;
                    &&& x < procs.len()
                    &&& (procs[x as int].burst % quantum == 0 && procs[x as int].burst > 0
                        ==> fg[k].end - fg[k].start == quantum)
                },
            SimOutcome::Stalled { .. } => true,
        },
{
    lemma_fresh_run_invariants(procs, quantum);
}

/// DETERMINISM: a run is a mathematical function of the process list and
/// the quantum — the same inputs give the identical outcome, across
/// repeated runs.
pub proof fn lemma_determinism(
    procs1: Seq<ProcessModel>,
    quantum1: nat,
    procs2: Seq<ProcessModel>,
    quantum2: nat,
)
    requires
        procs1 == procs2,
        quantum1 == quantum2,
    ensures
        spec_run(procs1, quantum1) == spec_run(procs2, quantum2),
{
}

/// FAIRNESS: at a scheduling decision whose deferred slot holds the process
/// that just ran without finishing, that process stands at the very back of
/// the admission queue — behind every process that was already waiting and
/// every process the arrival scan admits at this decision — and nowhere
/// else in it, so it runs again only after all of them.
pub proof fn lemma_fairness(procs: Seq<ProcessModel>, tick: nat, queue: Seq<nat>, lp: nat)
    requires
        wf_sim_state(procs, tick, queue, Some(lp)),
    ensures
        ({
            let q2 = queue + admitted_pids(procs, tick) + last_seq(Some(lp));
            &&& q2.len() >= 1
            &&& q2.last() == lp
            &&& forall|j: int| 0 <= j < q2.len() - 1 ==> q2[j] != lp
        }),
{
    let q2 = queue + admitted_pids(procs, tick) + last_seq(Some(lp));
    lemma_admitted_pids_from_elems(procs, tick, 0);
    assert(forall|i: int| 0 <= i < procs.len() ==> (#[trigger] procs[i]).pid == i);
    assert(q2.last() == lp);
    assert forall|j: int| 0 <= j < q2.len() - 1 implies q2[j] != lp by {
        let nq = queue.len() as int;
        if j < nq {
            assert(q2[j] == queue[j]);
            assert(!queue.contains(lp));
        } else {
            assert(q2[j] == admitted_pids(procs, tick)[j - nq]);
            assert(admissible(procs[q2[j] as int], tick));
            assert(procs[lp as int].state == ProcessState::Ready);
        }
    }
}

/// The invariants of a completed run started on a fresh process list.
pub proof fn lemma_fresh_run_invariants(procs: Seq<ProcessModel>, quantum: nat)
    requires
        quantum >= 1,
        fresh_process_list(procs),
    ensures
        match spec_run(procs, quantum) {
            SimOutcome::Done { procs: fp, gantt: fg, tick: ft } => {
                &&& immut_preserved(procs, fp)
                &&& all_finished(fp)
                &&& forall|i: int| 0 <= i < fp.len() ==> wf_proc(#[trigger] fp[i], i, ft)
                &&& ft == total_burst(procs)
                &&& crate::gantt::sum_durations(fg) == total_burst(procs)
                &&& chained_from(fg, 0, 0, ft, quantum)
                &&& forall|k: int|
                    0 <= k < fg.len() ==> {
                        let x = (#[trigger] fg[k]).pid;
                        &&& x < procs.len()
                        &&& (procs[x as int].burst % quantum == 0 && procs[x as int].burst > 0
                            ==> fg[k].end - fg[k].start == quantum)
                    }
            },
            SimOutcome::Stalled { procs: sp } => immut_preserved(procs, sp),
        },
{
    assert(wf_sim_state(procs, 0, Seq::empty(), None));
    assert(aligned(procs, quantum)) by {
        vstd::arithmetic::div_mod::lemma_small_mod(0, quantum);
    }
    lemma_sim_invariants(procs, quantum, 0, Seq::empty(), None, Seq::empty());
    lemma_fresh_total_rem(procs, 0);
}

} // verus!
