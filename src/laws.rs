//! Properties of a schedule, proved from the definitions that the passes'
//! contracts use.
use crate::graph::{lemma_sinks, lemma_sources, sinks, sources, TaskMapView};
use crate::schedule::{
    backwarded,
    comes_before,
    critical_order,
    earliest_finish,
    earliest_start,
    earliest_start_upto,
    forwarded,
    latest_finish,
    latest_finish_upto,
    latest_start,
    lemma_early_bounds,
    lemma_forward_end,
    lemma_late_bounds,
    lemma_pred_bound,
    lemma_same_structure_times,
    project_end,
    scheduled,
};
use vstd::prelude::*;

verus! {

/// In a scheduled registry every task finishes its duration after it
/// starts, at the earliest and at the latest.
pub proof fn lemma_spans_match_durations(v: TaskMapView)
    requires
        scheduled(v),
    ensures
        forall|i: int|
            #![trigger v.tasks[i]]
            0 <= i < v.tasks.len() ==> v.tasks[i].early_finish == v.tasks[i].early_start
                + v.tasks[i].duration && v.tasks[i].late_finish - v.tasks[i].late_start
                == v.tasks[i].duration,
{
}

/// In a scheduled registry no task has negative slack: it can start and
/// finish no later than it must.
pub proof fn lemma_slack_nonnegative(v: TaskMapView)
    requires
        scheduled(v),
    ensures
        forall|i: int|
            #![trigger v.tasks[i]]
            0 <= i < v.tasks.len() ==> v.tasks[i].early_start <= v.tasks[i].late_start
                && v.tasks[i].early_finish <= v.tasks[i].late_finish,
{
    lemma_forward_end(v);
    assert forall|i: int| #![trigger v.tasks[i]] 0 <= i < v.tasks.len() implies v.tasks[i].early_start
        <= v.tasks[i].late_start && v.tasks[i].early_finish <= v.tasks[i].late_finish by {
        lemma_late_bounds(v, project_end(v), i, v.tasks[i].succ@.len() as int);
    }
}

/// In a scheduled registry START starts at time 0, at the earliest and at
/// the latest.
pub proof fn lemma_start_at_zero(v: TaskMapView)
    requires
        scheduled(v),
    ensures
        v.tasks[v.start->0 as int].early_start == 0,
        v.tasks[v.start->0 as int].late_start == 0,
{
    let s = v.start->0 as int;
    let e = v.end->0 as int;
    lemma_forward_end(v);
    lemma_zero_slack_at_end(v);
    lemma_zero_slack_reaches_start(v, e);
    assert(v.tasks[s].pred@.len() == 0);
}

/// In a scheduled registry END finishes when the last of its predecessors
/// (the tasks that had no successor when END was added) finishes, and that
/// is also its latest finish.
pub proof fn lemma_makespan(v: TaskMapView)
    requires
        scheduled(v),
    ensures
        ({
            let end = v.tasks[v.end->0 as int];
            &&& forall|k: int|
                0 <= k < end.pred@.len() ==> v.tasks[#[trigger] end.pred@[k] as int].early_finish
                    <= end.early_finish
            &&& exists|k: int|
                0 <= k < end.pred@.len() && v.tasks[#[trigger] end.pred@[k] as int].early_finish
                    == end.early_finish
            &&& end.early_finish == end.late_finish
        }),
{
    let e = v.end->0 as int;
    let end = v.tasks[e];
    lemma_forward_end(v);
    assert(v.task_wf(e));
    assert(!v.is_start(e)) by {
        if v.is_start(e) {
            assert(v.tasks[e].id@ == crate::graph::START_ID@);
            assert(v.tasks[e].id@ == crate::graph::END_ID@);
            reveal_strlit("START");
            reveal_strlit("END");
        }
    }
    assert forall|k: int| 0 <= k < end.pred@.len() implies v.tasks[#[trigger] end.pred@[
        k
    ] as int].early_finish <= end.early_finish by {
        lemma_pred_bound(v, e, end.pred@.len() as int, k);
    }
    let m = lemma_pred_witness(v, e, end.pred@.len() as int);
    assert(v.tasks[end.pred@[m] as int].early_finish == end.early_finish);
}

/// In a scheduled registry START and END have zero slack, so every
/// listing of the critical tasks holds both.
pub proof fn lemma_critical_path_has_anchors(v: TaskMapView, idx: Seq<usize>)
    requires
        scheduled(v),
        critical_order(v, idx),
    ensures
        idx.contains(v.start->0),
        idx.contains(v.end->0),
{
    let s = v.start->0 as int;
    let e = v.end->0 as int;
    lemma_forward_end(v);
    lemma_zero_slack_at_end(v);
    lemma_zero_slack_reaches_start(v, e);
    assert(v.tasks[s].spec_is_critical());
    assert(v.tasks[e].spec_is_critical());
}

/// Only one sequence lists the critical tasks in order, so the critical
/// path is fully determined by the recorded times.
pub proof fn lemma_critical_order_unique(v: TaskMapView, a: Seq<usize>, b: Seq<usize>)
    requires
        critical_order(v, a),
        critical_order(v, b),
    ensures
        a == b,
{
    assert forall|x: usize| a.contains(x) <==> b.contains(x) by {
        if a.contains(x) {
            let k = choose|k: int| 0 <= k < a.len() && a[k] == x;
            assert(v.tasks[a[k] as int].spec_is_critical());
        }
        if b.contains(x) {
            let k = choose|k: int| 0 <= k < b.len() && b[k] == x;
            assert(v.tasks[b[k] as int].spec_is_critical());
        }
    }
    lemma_sorted_unique(v, a, b);
}

/// Two sequences with the same elements, each strictly ordered by
/// `comes_before`, are equal.
proof fn lemma_sorted_unique(v: TaskMapView, a: Seq<usize>, b: Seq<usize>)
    requires
        forall|i: int, j: int|
            0 <= i < j < a.len() ==> comes_before(v, #[trigger] a[i] as int, #[trigger] a[j] as int),
        forall|i: int, j: int|
            0 <= i < j < b.len() ==> comes_before(v, #[trigger] b[i] as int, #[trigger] b[j] as int),
        forall|x: usize| a.contains(x) <==> b.contains(x),
    ensures
        a == b,
    decreases a.len(),
{
    if a.len() == 0 {
        if b.len() > 0 {
            assert(b.contains(b[0]));
        }
        assert(a =~= b);
    } else {
        assert(a.contains(a[0]));
        assert(b.len() > 0);
        assert(b.contains(b[0]));
        let ka = choose|k: int| 0 <= k < a.len() && a[k] == b[0];
        let kb = choose|k: int| 0 <= k < b.len() && b[k] == a[0];
        if ka > 0 && kb > 0 {
            assert(comes_before(v, a[0] as int, a[ka] as int));
            assert(comes_before(v, b[0] as int, b[kb] as int));
        }
        assert(a[0] == b[0]);
        let ra = a.drop_first();
        let rb = b.drop_first();
        assert forall|x: usize| ra.contains(x) <==> rb.contains(x) by {
            if ra.contains(x) {
                let k = choose|k: int| 0 <= k < ra.len() && ra[k] == x;
                assert(a[k + 1] == x);
                assert(comes_before(v, a[0] as int, a[k + 1] as int));
                assert(b.contains(x));
                let m = choose|m: int| 0 <= m < b.len() && b[m] == x;
                assert(m != 0);
                assert(rb[m - 1] == x);
            }
            if rb.contains(x) {
                let k = choose|k: int| 0 <= k < rb.len() && rb[k] == x;
                assert(b[k + 1] == x);
                assert(comes_before(v, b[0] as int, b[k + 1] as int));
                assert(a.contains(x));
                let m = choose|m: int| 0 <= m < a.len() && a[m] == x;
                assert(m != 0);
                assert(ra[m - 1] == x);
            }
        }
        assert forall|i: int, j: int| 0 <= i < j < ra.len() implies comes_before(
            v,
            #[trigger] ra[i] as int,
            #[trigger] ra[j] as int,
        ) by {
            assert(ra[i] == a[i + 1] && ra[j] == a[j + 1]);
        }
        assert forall|i: int, j: int| 0 <= i < j < rb.len() implies comes_before(
            v,
            #[trigger] rb[i] as int,
            #[trigger] rb[j] as int,
        ) by {
            assert(rb[i] == b[i + 1] && rb[j] == b[j + 1]);
        }
        lemma_sorted_unique(v, ra, rb);
        assert(a =~= seq![a[0]] + ra);
        assert(b =~= seq![b[0]] + rb);
    }
}

/// A second forward pass over a forward-propagated registry changes
/// nothing.
pub proof fn lemma_forward_idempotent(a: TaskMapView, b: TaskMapView, c: TaskMapView)
    requires
        a.wf(),
        forwarded(a, b),
        forwarded(b, c),
    ensures
        forall|i: int|
            #![trigger c.tasks[i]]
            0 <= i < c.tasks.len() ==> c.tasks[i].same_shape(b.tasks[i]) && c.tasks[i].same_times(
                b.tasks[i],
            ),
{
    lemma_same_structure_times(a, b);
    assert forall|i: int|
        #![trigger c.tasks[i]]
        0 <= i < c.tasks.len() implies c.tasks[i].same_shape(b.tasks[i]) && c.tasks[i].same_times(
        b.tasks[i],
    ) by {
        assert(b.tasks[i].same_shape(a.tasks[i]));
        assert(earliest_start(a, i) == earliest_start(b, i));
        assert(earliest_finish(a, i) == earliest_finish(b, i));
    }
}

/// A second backward pass over a backward-propagated registry changes
/// nothing.
pub proof fn lemma_backward_idempotent(a: TaskMapView, b: TaskMapView, c: TaskMapView)
    requires
        a.wf(),
        a.anchored(),
        backwarded(a, b),
        backwarded(b, c),
    ensures
        forall|i: int|
            #![trigger c.tasks[i]]
            0 <= i < c.tasks.len() ==> c.tasks[i].same_shape(b.tasks[i]) && c.tasks[i].same_times(
                b.tasks[i],
            ),
{
    lemma_same_structure_times(a, b);
    let e = a.end->0 as int;
    assert(b.tasks[e].early_start == a.tasks[e].early_start);
    assert(project_end(b) == project_end(a));
    assert forall|i: int|
        #![trigger c.tasks[i]]
        0 <= i < c.tasks.len() implies c.tasks[i].same_shape(b.tasks[i]) && c.tasks[i].same_times(
        b.tasks[i],
    ) by {
        assert(b.tasks[i].same_shape(a.tasks[i]));
        assert(latest_start(a, project_end(a), i) == latest_start(b, project_end(b), i));
        assert(latest_finish(a, project_end(a), i) == latest_finish(b, project_end(b), i));
    }
}

/// Adding START and then END leaves exactly one task without
/// predecessors (START) and exactly one without successors (END).
pub proof fn lemma_start_then_end_anchors(v0: TaskMapView, v1: TaskMapView, v2: TaskMapView)
    requires
        v0.wf(),
        v1.wf(),
        v2.wf(),
        v0.started(v1),
        v1.ended(v2),
    ensures
        v2.anchored(),
{
    let n = v0.tasks.len() as int;
    lemma_sinks(v1.tasks, n + 1);
    let last = if n == 0 {
        0
    } else {
        (n - 1) as int
    };
    assert(v1.task_wf(last));
    if v1.tasks[last].succ@.len() > 0 {
        assert(v1.rank(v1.tasks[last].succ@[0] as int) > v1.rank(last));
        assert(false);
    }
    assert(sinks(v1.tasks, n + 1).contains(last as usize));
    assert forall|i: int| 0 <= i < v2.tasks.len() && !v2.is_start(i) implies v2.tasks[i].pred@.len()
        > 0 by {
        if i < n {
            if v0.tasks[i].pred@.len() == 0 {
                assert(v1.tasks[i].pred@.len() == v0.tasks[i].pred@.len() + 1);
            }
            assert(v2.tasks[i].pred@ == v1.tasks[i].pred@);
        } else if i == n + 1 {
            assert(sinks(v1.tasks, n + 1).len() > 0);
        }
    }
    assert forall|i: int| 0 <= i < v2.tasks.len() && !v2.is_end(i) implies v2.tasks[i].succ@.len()
        > 0 by {
        if v1.tasks[i].succ@.len() == 0 {
            assert(v2.tasks[i].succ@.len() == v1.tasks[i].succ@.len() + 1);
        }
    }
}

/// Adding END and then START leaves exactly one task without
/// predecessors (START) and exactly one without successors (END).
pub proof fn lemma_end_then_start_anchors(v0: TaskMapView, v1: TaskMapView, v2: TaskMapView)
    requires
        v0.wf(),
        v1.wf(),
        v2.wf(),
        v0.ended(v1),
        v1.started(v2),
    ensures
        v2.anchored(),
{
    let n = v0.tasks.len() as int;
    lemma_sources(v1.tasks, n + 1);
    if let Some(s) = v1.start {
        assert(v2.tasks[s as int].id@ == v1.tasks[s as int].id@);
        assert(v2.tasks[n + 1].id@ == v2.tasks[s as int].id@);
    }
    assert(v1.task_wf(0));
    if v1.tasks[0].pred@.len() > 0 {
        assert(v1.rank(v1.tasks[0].pred@[0] as int) < v1.rank(0));
        assert(false);
    }
    assert(sources(v1.tasks, n + 1).contains(0));
    assert forall|i: int| 0 <= i < v2.tasks.len() && !v2.is_end(i) implies v2.tasks[i].succ@.len()
        > 0 by {
        if i < n {
            if v0.tasks[i].succ@.len() == 0 {
                assert(v1.tasks[i].succ@.len() == v0.tasks[i].succ@.len() + 1);
            }
            assert(v2.tasks[i].succ@ == v1.tasks[i].succ@);
        } else if i == n + 1 {
            assert(sources(v1.tasks, n + 1).len() > 0);
        }
    }
    assert forall|i: int| 0 <= i < v2.tasks.len() && !v2.is_start(i) implies v2.tasks[i].pred@.len()
        > 0 by {
        if v1.tasks[i].pred@.len() == 0 {
            assert(v2.tasks[i].pred@.len() == v1.tasks[i].pred@.len() + 1);
        }
    }
    assert(v2.tasks[n as int].succ@ == v1.tasks[n as int].succ@);
}

/// The earliest start of a task with predecessors is the earliest finish
/// of one of them.
proof fn lemma_pred_witness(v: TaskMapView, i: int, k: int) -> (m: int)
    requires
        v.wf(),
        0 <= i < v.tasks.len(),
        0 < k <= v.tasks[i].pred@.len(),
    ensures
        0 <= m < k,
        earliest_finish(v, v.tasks[i].pred@[m] as int) == earliest_start_upto(v, i, k),
    decreases k,
{
    assert(v.task_wf(i));
    let p = v.tasks[i].pred@[k - 1] as int;
    lemma_early_bounds(v, p);
    assert(v.rank(p) < v.rank(i));
    if k == 1 {
        assert(earliest_start_upto(v, i, 0) == 0);
        0
    } else {
        let m = lemma_pred_witness(v, i, k - 1);
        if earliest_finish(v, v.tasks[i].pred@[m] as int) >= earliest_finish(v, p) {
            m
        } else {
            k - 1
        }
    }
}

/// A task finishes, at the latest, when the first `k` of its successors
/// must start.
proof fn lemma_succ_bound(v: TaskMapView, d: int, i: int, k: int, q: int)
    requires
        v.wf(),
        0 <= i < v.tasks.len(),
        0 <= q < k <= v.tasks[i].succ@.len(),
    ensures
        latest_finish_upto(v, d, i, k) <= latest_start(v, d, v.tasks[i].succ@[q] as int),
    decreases k,
{
    assert(v.task_wf(i));
    if q < k - 1 {
        lemma_succ_bound(v, d, i, k - 1, q);
    }
}

/// END has zero slack once both passes have run.
proof fn lemma_zero_slack_at_end(v: TaskMapView)
    requires
        scheduled(v),
    ensures
        latest_start(v, project_end(v), v.end->0 as int) == earliest_start(v, v.end->0 as int),
{
    lemma_forward_end(v);
}

/// Following, from a task of zero slack, a predecessor that finishes when
/// it starts leads to START with zero slack.
proof fn lemma_zero_slack_reaches_start(v: TaskMapView, x: int)
    requires
        scheduled(v),
        0 <= x < v.tasks.len(),
        latest_start(v, project_end(v), x) == earliest_start(v, x),
    ensures
        latest_start(v, project_end(v), v.start->0 as int) == earliest_start(
            v,
            v.start->0 as int,
        ),
    decreases v.rank(x),
{
    let d = project_end(v);
    if !v.is_start(x) {
        lemma_forward_end(v);
        assert(v.task_wf(x));
        let m = lemma_pred_witness(v, x, v.tasks[x].pred@.len() as int);
        let p = v.tasks[x].pred@[m] as int;
        assert(v.tasks[x].pred@.contains(p as usize));
        assert(v.tasks[p].succ@.contains(x as usize));
        let q = choose|q: int| 0 <= q < v.tasks[p].succ@.len() && v.tasks[p].succ@[q] == x;
        lemma_succ_bound(v, d, p, v.tasks[p].succ@.len() as int, q);
        lemma_late_bounds(v, d, p, v.tasks[p].succ@.len() as int);
        lemma_zero_slack_reaches_start(v, p);
    }
}

} // verus!
