//! The execution timeline: one `GanttNode` per executed interval, in
//! insertion order, plus the optional compaction of adjacent intervals that
//! belong to the same process.

use vstd::prelude::*;

verus! {

/// One executed interval of the timeline: process `pid` ran from tick
/// `start` to tick `end`.
#[derive(Clone, Copy, PartialEq, Eq, Structural, Debug)]
pub struct GanttNode {
    pub pid: usize,
    pub start: usize,
    pub end: usize,
}

/// Mathematical model of a `GanttNode`, with unbounded integers.
#[verifier::ext_equal]
pub struct IntervalModel {
    pub pid: nat,
    pub start: nat,
    pub end: nat,
}

impl View for GanttNode {
    type V = IntervalModel;

    open spec fn view(&self) -> IntervalModel {
        IntervalModel { pid: self.pid as nat, start: self.start as nat, end: self.end as nat }
    }
}

/// The view of a whole chart.
pub open spec fn chart_view(chart: Seq<GanttNode>) -> Seq<IntervalModel> {
    chart.map_values(|n: GanttNode| n@)
}

/// Sum of the durations of the intervals of a chart.
pub open spec fn sum_durations(chart: Seq<IntervalModel>) -> int
    decreases chart.len(),
{
    if chart.len() == 0 {
        0
    } else {
        sum_durations(chart.drop_last()) + (chart.last().end - chart.last().start)
    }
}

/// Coalesces consecutive intervals that belong to the same process into one
/// wider interval, keeping the earlier interval's `start` and the later
/// interval's `end`.
pub open spec fn spec_compact(chart: Seq<IntervalModel>) -> Seq<IntervalModel>
    decreases chart.len(),
{
    if chart.len() == 0 {
        Seq::empty()
    } else {
        let rest = spec_compact(chart.drop_last());
        let node = chart.last();
        if rest.len() > 0 && rest.last().pid == node.pid {
            rest.update(
                rest.len() - 1,
                IntervalModel { pid: node.pid, start: rest.last().start, end: node.end },
            )
        } else {
            rest.push(node)
        }
    }
}

/// The intervals of a chart are contiguous and each runs forward in time.
pub open spec fn contiguous(chart: Seq<IntervalModel>) -> bool {
    forall|k: int|
        0 <= k < chart.len() ==> (#[trigger] chart[k]).start <= chart[k].end && (k > 0
            ==> chart[k].start == chart[k - 1].end)
}

pub proof fn lemma_compact_last_end(chart: Seq<IntervalModel>)
    requires
        chart.len() > 0,
    ensures
        spec_compact(chart).len() > 0,
        spec_compact(chart).last().end == chart.last().end,
{
}

/// Compaction changes only how the timeline is cut up, never how much of
/// it is covered: on a contiguous chart the sum of the interval durations
/// is unchanged.
pub proof fn lemma_compact_preserves_durations(chart: Seq<IntervalModel>)
    requires
        contiguous(chart),
    ensures
        sum_durations(spec_compact(chart)) == sum_durations(chart),
    decreases chart.len(),
{
    if chart.len() > 0 {
        let dl = chart.drop_last();
        let node = chart.last();
        assert(contiguous(dl)) by {
            assert(forall|k: int| 0 <= k < dl.len() ==> dl[k] == #[trigger] chart[k]);
        }
        lemma_compact_preserves_durations(dl);
        let rest = spec_compact(dl);
        if rest.len() > 0 && rest.last().pid == node.pid {
            lemma_compact_last_end(dl);
            assert(node.start == dl.last().end);
            let merged = IntervalModel { pid: node.pid, start: rest.last().start, end: node.end };
            assert(sum_durations(rest.update(rest.len() - 1, merged)) == sum_durations(rest) - (
            rest.last().end - rest.last().start) + (merged.end - merged.start)) by {
                assert(rest.update(rest.len() - 1, merged).drop_last() =~= rest.drop_last());
                assert(rest.update(rest.len() - 1, merged).last() == merged);
            }
            assert(rest.last().end == dl.last().end);
            assert(sum_durations(spec_compact(chart)) == sum_durations(rest) + node.end
                - dl.last().end);
        } else {
            assert(sum_durations(rest.push(node)) == sum_durations(rest) + (node.end
                - node.start)) by {
                assert(rest.push(node).drop_last() =~= rest);
                assert(rest.push(node).last() == node);
            }
        }
    }
}

/// Compacts a Gantt chart: adjacent intervals of the same process are
/// merged into a single interval spanning from the first one's start tick
/// to the last one's end tick. A reporting convenience with no effect on
/// the computed averages.
pub fn compact_chart(chart: &Vec<GanttNode>) -> (r: Vec<GanttNode>)
    ensures
        chart_view(r@) == spec_compact(chart_view(chart@)),
{
    let mut out: Vec<GanttNode> = Vec::new();
    let mut i: usize = 0;
    proof {
        assert(chart_view(chart@.take(0)) =~= Seq::<IntervalModel>::empty());
        assert(chart_view(out@) =~= spec_compact(chart_view(chart@.take(0))));
    }
    while i < chart.len()
        invariant
            i <= chart.len(),
            chart_view(out@) == spec_compact(chart_view(chart@.take(i as int))),
        decreases chart.len() - i,
    {
        let node = chart[i];
        proof {
            assert(chart_view(chart@.take(i + 1)).drop_last() =~= chart_view(chart@.take(i as int)));
            assert(chart_view(chart@.take(i + 1)).last() == node@);
        }
        let n = out.len();
        if n > 0 && out[n - 1].pid == node.pid {
            let merged = GanttNode { pid: node.pid, start: out[n - 1].start, end: node.end };
            out.set(n - 1, merged);
            proof {
                assert(chart_view(out@) =~= spec_compact(chart_view(chart@.take(i + 1))));
            }
        } else {
            out.push(node);
            proof {
                assert(chart_view(out@) =~= spec_compact(chart_view(chart@.take(i + 1))));
            }
        }
        i = i + 1;
    }
    proof {
        assert(chart@.take(chart@.len() as int) =~= chart@);
    }
    out
}

} // verus!
