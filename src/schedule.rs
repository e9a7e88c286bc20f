use crate::error::ScheduleError;
use crate::graph::{names_of, TaskMap, TaskMapView};
use crate::task::Task;
use vstd::math::{max, min};
use vstd::prelude::*;

verus! {

/// The largest earliest finish among the first `k` predecessors of task
/// `i`, and 0.
pub open spec fn earliest_start_upto(v: TaskMapView, i: int, k: int) -> int
    decreases v.rank(i), k,
{
    if k <= 0 {
        0
    } else {
        let p = v.tasks[i].pred@[k - 1] as int;
        let f = if v.rank(p) < v.rank(i) {
            earliest_finish(v, p)
        } else {
            0
        };
        max(earliest_start_upto(v, i, k - 1), f)
    }
}

/// Earliest finish of task `i`: its earliest start plus its duration.
pub open spec fn earliest_finish(v: TaskMapView, i: int) -> int
    decreases v.rank(i), v.tasks[i].pred@.len() + 1,
{
    earliest_start_upto(v, i, v.tasks[i].pred@.len() as int) + v.tasks[i].duration
}

/// Earliest start of task `i`: the largest earliest finish among its
/// predecessors, or 0 if it has none.
pub open spec fn earliest_start(v: TaskMapView, i: int) -> int {
    earliest_start_upto(v, i, v.tasks[i].pred@.len() as int)
}

/// The least latest start among the first `k` successors of task `i`, and
/// the project end `d`.
pub open spec fn latest_finish_upto(v: TaskMapView, d: int, i: int, k: int) -> int
    decreases v.tasks.len() - v.rank(i), k,
{
    if k <= 0 {
        d
    } else {
        let s = v.tasks[i].succ@[k - 1] as int;
        let l = if v.rank(i) < v.rank(s) <= v.tasks.len() {
            latest_start(v, d, s)
        } else {
            d
        };
        min(latest_finish_upto(v, d, i, k - 1), l)
    }
}

/// Latest start of task `i` for the project end `d`: its latest finish
/// less its duration.
pub open spec fn latest_start(v: TaskMapView, d: int, i: int) -> int
    decreases v.tasks.len() - v.rank(i), v.tasks[i].succ@.len() + 1,
{
    latest_finish_upto(v, d, i, v.tasks[i].succ@.len() as int) - v.tasks[i].duration
}

/// Latest finish of task `i` for the project end `d`: the least latest
/// start among its successors, or `d` if it has none.
pub open spec fn latest_finish(v: TaskMapView, d: int, i: int) -> int {
    latest_finish_upto(v, d, i, v.tasks[i].succ@.len() as int)
}

/// Every earliest finish fits in `u32`.
pub open spec fn fits(v: TaskMapView) -> bool {
    forall|i: int| 0 <= i < v.tasks.len() ==> #[trigger] earliest_finish(v, i) <= u32::MAX
}

/// Every task holds the earliest times that its predecessors force.
pub open spec fn forward_done(v: TaskMapView) -> bool {
    forall|i: int|
        #![trigger v.tasks[i]]
        0 <= i < v.tasks.len() ==> v.tasks[i].early_start == earliest_start(v, i)
            && v.tasks[i].early_finish == earliest_finish(v, i)
}

/// The completion time that the backward pass works back from: END's
/// recorded earliest start.
pub open spec fn project_end(v: TaskMapView) -> int {
    v.tasks[v.end->0 as int].early_start as int
}

/// Every task holds the latest times that its successors and the project
/// end allow.
pub open spec fn backward_done(v: TaskMapView) -> bool {
    forall|i: int|
        #![trigger v.tasks[i]]
        0 <= i < v.tasks.len() ==> v.tasks[i].late_start == latest_start(v, project_end(v), i)
            && v.tasks[i].late_finish == latest_finish(v, project_end(v), i)
}

/// Both passes have run on an anchored registry.
pub open spec fn scheduled(v: TaskMapView) -> bool {
    &&& v.wf()
    &&& v.anchored()
    &&& forward_done(v)
    &&& backward_done(v)
}

/// `after` is `before` with the earliest times of the forward pass.
pub open spec fn forwarded(before: TaskMapView, after: TaskMapView) -> bool {
    &&& after.same_structure(before)
    &&& forall|i: int|
        #![trigger after.tasks[i]]
        0 <= i < before.tasks.len() ==> {
            &&& after.tasks[i].early_start == earliest_start(before, i)
            &&& after.tasks[i].early_finish == earliest_finish(before, i)
            &&& after.tasks[i].late_start == before.tasks[i].late_start
            &&& after.tasks[i].late_finish == before.tasks[i].late_finish
        }
}

/// `after` is `before` with the latest times of the backward pass.
pub open spec fn backwarded(before: TaskMapView, after: TaskMapView) -> bool {
    &&& after.same_structure(before)
    &&& forall|i: int|
        #![trigger after.tasks[i]]
        0 <= i < before.tasks.len() ==> {
            &&& after.tasks[i].early_start == before.tasks[i].early_start
            &&& after.tasks[i].early_finish == before.tasks[i].early_finish
            &&& after.tasks[i].late_start == latest_start(before, project_end(before), i)
            &&& after.tasks[i].late_finish == latest_finish(before, project_end(before), i)
        }
}

/// Earliest start and finish of every task, from START onwards.
///
/// Dependencies precede their dependents in the arena, so START followed
/// by the arena order is a topological order: each task is resolved once,
/// after all of its predecessors.  Fails with `TimeOverflow`, exactly when
/// some earliest finish exceeds `u32::MAX`, with the structure untouched.
pub fn propagate_forward(map: &mut TaskMap) -> (r: Result<(), ScheduleError>)
    requires
        old(map).wf(),
    ensures
        final(map).wf(),
        final(map)@.same_structure(old(map)@),
        r is Ok <==> fits(old(map)@),
        r is Err ==> r == Err::<(), ScheduleError>(ScheduleError::TimeOverflow),
        r is Ok ==> forwarded(old(map)@, final(map)@),
{
    let ghost v0 = map@;
    let n = map.len();
    let start = map.start_index();
    if let Some(s) = start {
        map.set_early(s, 0, 0);
    }
    proof {
        lemma_same_structure_wf(v0, map@);
    }
    let mut i: usize = 0;
    while i < n
        invariant
            v0 == old(map)@,
            v0.wf(),
            map.wf(),
            map@.same_structure(v0),
            n == v0.tasks.len(),
            start == v0.start,
            i <= n,
            forall|j: int|
                #![trigger map@.tasks[j]]
                0 <= j < n && (j < i || v0.is_start(j)) ==> map@.tasks[j].early_start
                    == earliest_start(v0, j) && map@.tasks[j].early_finish == earliest_finish(
                    v0,
                    j,
                ),
            forall|j: int|
                #![trigger map@.tasks[j]]
                0 <= j < n ==> map@.tasks[j].late_start == v0.tasks[j].late_start
                    && map@.tasks[j].late_finish == v0.tasks[j].late_finish,
        decreases n - i,
    {
        let is_start = match start {
            Some(s) => s == i,
            None => false,
        };
        if !is_start {
            let t = map.task(i);
            let mut es: u32 = 0;
            let mut k: usize = 0;
            while k < t.pred.len()
                invariant
                    v0 == old(map)@,
                    v0.wf(),
                    map@.same_structure(v0),
                    n == v0.tasks.len(),
                    i < n,
                    !v0.is_start(i as int),
                    *t == map@.tasks[i as int],
                    k <= t.pred@.len(),
                    es == earliest_start_upto(v0, i as int, k as int),
                    forall|j: int|
                        #![trigger map@.tasks[j]]
                        0 <= j < n && (j < i || v0.is_start(j)) ==> map@.tasks[j].early_finish
                            == earliest_finish(v0, j),
                decreases t.pred@.len() - k,
            {
                let p = t.pred[k];
                assert(v0.task_wf(i as int));
                assert(v0.tasks[i as int].pred@[k as int] == p);
                let f = map.task(p).early_finish;
                if f > es {
                    es = f;
                }
                k = k + 1;
            }
            let d = t.duration;
            if es as u64 + d as u64 > u32::MAX as u64 {
                assert(earliest_finish(v0, i as int) > u32::MAX);
                return Err(ScheduleError::TimeOverflow);
            }
            map.set_early(i, es, es + d);
            proof {
                lemma_same_structure_wf(v0, map@);
            }
        }
        i = i + 1;
    }
    assert(fits(v0));
    Ok(())
}

/// Latest start and finish of every task, from END backwards, for the
/// project end recorded at END by the forward pass.
///
/// The mirror of the forward pass: the reverse arena order followed by
/// START resolves each task once, after all of its successors.  Because the
/// earliest times are in place, no latest finish falls below the duration
/// it is reduced by.
pub fn propagate_backward(map: &mut TaskMap)
    requires
        old(map).wf(),
        old(map)@.anchored(),
        forward_done(old(map)@),
    ensures
        final(map).wf(),
        backwarded(old(map)@, final(map)@),
        forward_done(final(map)@),
        backward_done(final(map)@),
{
    let ghost v0 = map@;
    let n = map.len();
    let start = map.start_index();
    let e = map.end_index().unwrap();
    let d = map.task(e).early_start;
    let mut i: usize = n;
    while i > 0
        invariant
            v0 == old(map)@,
            v0.wf(),
            v0.anchored(),
            forward_done(v0),
            d == project_end(v0),
            map@.same_structure(v0),
            n == v0.tasks.len(),
            start == v0.start,
            i <= n,
            forall|j: int|
                #![trigger map@.tasks[j]]
                0 <= j < n && j >= i && !v0.is_start(j) ==> map@.tasks[j].late_start
                    == latest_start(v0, d as int, j) && map@.tasks[j].late_finish
                    == latest_finish(v0, d as int, j),
            forall|j: int|
                #![trigger map@.tasks[j]]
                0 <= j < n ==> map@.tasks[j].early_start == v0.tasks[j].early_start
                    && map@.tasks[j].early_finish == v0.tasks[j].early_finish,
        decreases i,
    {
        i = i - 1;
        let is_start = match start {
            Some(s) => s == i,
            None => false,
        };
        if !is_start {
            let (ls, lf) = late_times(map, i, d, Ghost(v0));
            map.set_late(i, ls, lf);
        }
    }
    if let Some(s) = start {
        proof {
        }
        let (ls, lf) = late_times(map, s, d, Ghost(v0));
        map.set_late(s, ls, lf);
    }
    proof {
        lemma_same_structure_wf(v0, map@);
        lemma_same_structure_times(v0, map@);
        assert(project_end(map@) == project_end(v0));
    }
}

/// Task `i` is listed before task `j`: it starts earlier, or at the same
/// time and comes first in topological rank (START, then the order of
/// insertion).
pub open spec fn comes_before(v: TaskMapView, i: int, j: int) -> bool {
    v.tasks[i].early_start < v.tasks[j].early_start || (v.tasks[i].early_start
        == v.tasks[j].early_start && v.rank(i) < v.rank(j))
}

/// `idx` lists each critical task of `v` exactly once, ordered by
/// `comes_before`.
pub open spec fn critical_order(v: TaskMapView, idx: Seq<usize>) -> bool {
    &&& forall|k: int|
        #![trigger idx[k]]
        0 <= k < idx.len() ==> idx[k] < v.tasks.len() && v.tasks[idx[k] as int].spec_is_critical()
    &&& forall|j: int|
        0 <= j < v.tasks.len() && #[trigger] v.tasks[j].spec_is_critical() ==> idx.contains(
            j as usize,
        )
    &&& forall|a: int, b: int|
        0 <= a < b < idx.len() ==> comes_before(v, #[trigger] idx[a] as int, #[trigger] idx[b] as int)
}

/// The identifiers of the tasks at positions `idx`.
pub open spec fn ids_at(v: TaskMapView, idx: Seq<usize>) -> Seq<Seq<char>> {
    idx.map_values(|j: usize| v.tasks[j as int].id@)
}

/// The critical path: the identifiers of the zero-slack tasks, by earliest
/// start, ties broken by topological rank (START first, then the order of
/// insertion).
pub fn get_critical_tasks(map: &TaskMap) -> (r: Vec<String>)
    ensures
        exists|idx: Seq<usize>| critical_order(map@, idx) && names_of(r@) == ids_at(map@, idx),
{
    let idx = critical_indices(map);
    let mut r: Vec<String> = Vec::new();
    let mut k: usize = 0;
    while k < idx.len()
        invariant
            critical_order(map@, idx@),
            k <= idx@.len(),
            names_of(r@) == ids_at(map@, idx@.take(k as int)),
        decreases idx.len() - k,
    {
        let ghost prev = r@;
        r.push(map.task(idx[k]).id.clone());
        assert(names_of(r@) =~= names_of(prev).push(map@.tasks[idx@[k as int] as int].id@));
        assert(ids_at(map@, idx@.take(k + 1)) =~= ids_at(map@, idx@.take(k as int)).push(
            map@.tasks[idx@[k as int] as int].id@,
        ));
        k = k + 1;
    }
    assert(idx@.take(k as int) =~= idx@);
    r
}

fn comes_before_exec(map: &TaskMap, i: usize, j: usize) -> (r: bool)
    requires
        i < map@.tasks.len(),
        j < map@.tasks.len(),
    ensures
        r == comes_before(map@, i as int, j as int),
{
    let a = map.task(i).early_start;
    let b = map.task(j).early_start;
    a < b || (a == b && rank_exec(map, i) < rank_exec(map, j))
}

fn rank_exec(map: &TaskMap, i: usize) -> (r: usize)
    requires
        i < map@.tasks.len(),
    ensures
        r == map@.rank(i as int),
{
    let n = map.len();
    assert(i < n);
    match map.start_index() {
        Some(s) if s == i => 0,
        _ => i + 1,
    }
}

/// Positions of the critical tasks in listing order: each round picks the
/// first critical task after the one picked last.
fn critical_indices(map: &TaskMap) -> (r: Vec<usize>)
    ensures
        critical_order(map@, r@),
{
    let ghost v = map@;
    let n = map.len();
    let mut out: Vec<usize> = Vec::new();
    let mut last: Option<usize> = None;
    loop
        invariant
            v == map@,
            n == v.tasks.len(),
            forall|k: int|
                #![trigger out@[k]]
                0 <= k < out@.len() ==> out@[k] < n && v.tasks[out@[k] as int].spec_is_critical(),
            forall|a: int, b: int|
                0 <= a < b < out@.len() ==> comes_before(
                    v,
                    #[trigger] out@[a] as int,
                    #[trigger] out@[b] as int,
                ),
            last is None <==> out@.len() == 0,
            last matches Some(l) ==> l < n && out@.last() == l,
            forall|j: int|
                #![trigger v.tasks[j]]
                0 <= j < n && v.tasks[j].spec_is_critical() && (last matches Some(l) && !comes_before(
                    v,
                    l as int,
                    j,
                )) ==> out@.contains(j as usize),
        decreases
            (match last {
                None => u32::MAX as int + 1,
                Some(l) => u32::MAX - v.tasks[l as int].early_start,
            }),
            (match last {
                None => 0,
                Some(l) => n + 1 - v.rank(l as int),
            }),
    {
        let mut best: Option<usize> = None;
        let mut j: usize = 0;
        while j < n
            invariant
                v == map@,
                n == v.tasks.len(),
                last matches Some(l) ==> l < n,
                j <= n,
                best matches Some(b) ==> b < j && v.tasks[b as int].spec_is_critical() && (
                last matches Some(l) ==> comes_before(v, l as int, b as int)),
                forall|q: int|
                    #![trigger v.tasks[q]]
                    0 <= q < j && v.tasks[q].spec_is_critical() && (last matches Some(l)
                        ==> comes_before(v, l as int, q)) ==> (best matches Some(b) && (q == b
                        || comes_before(v, b as int, q))),
            decreases n - j,
        {
            let t = map.task(j);
            let after_last = match last {
                None => true,
                Some(l) => comes_before_exec(map, l, j),
            };
            if t.is_critical() && after_last {
                let better = match best {
                    None => true,
                    Some(b) => comes_before_exec(map, j, b),
                };
                if better {
                    best = Some(j);
                }
            }
            j = j + 1;
        }
        match best {
            None => {
                return out;
            },
            Some(b) => {
                let ghost prev = out@;
                out.push(b);
                proof {
                    assert forall|k: int| 0 <= k < prev.len() implies comes_before(
                        v,
                        #[trigger] prev[k] as int,
                        b as int,
                    ) by {
                        if k < prev.len() - 1 {
                            assert(comes_before(v, prev[k] as int, prev[prev.len() - 1] as int));
                        }
                    }
                    assert forall|j: int|
                        #![trigger v.tasks[j]]
                        0 <= j < n && v.tasks[j].spec_is_critical() && !comes_before(
                            v,
                            b as int,
                            j,
                        ) implies out@.contains(j as usize) by {
                        if j == b {
                            assert(out@[prev.len() as int] == b);
                        } else if last matches Some(l) && !comes_before(v, l as int, j) {
                            assert(prev.contains(j as usize));
                            let k = choose|k: int| 0 <= k < prev.len() && prev[k] == j;
                            assert(out@[k] == j);
                        }
                    }
                }
                last = Some(b);
            },
        }
    }
}

/// The latest times of task `i`, all of whose successors are settled.
fn late_times(map: &TaskMap, i: usize, d: u32, Ghost(v0): Ghost<TaskMapView>) -> (r: (u32, u32))
    requires
        v0.wf(),
        v0.anchored(),
        forward_done(v0),
        d == project_end(v0),
        map@.same_structure(v0),
        i < v0.tasks.len(),
        forall|j: int|
            #![trigger map@.tasks[j]]
            0 <= j < v0.tasks.len() && v0.rank(i as int) < v0.rank(j) ==> map@.tasks[j].late_start
                == latest_start(v0, d as int, j),
    ensures
        r.0 == latest_start(v0, d as int, i as int),
        r.1 == latest_finish(v0, d as int, i as int),
{
    let t = map.task(i);
    assert(v0.task_wf(i as int));
    let mut lf: u32 = d;
    let mut k: usize = 0;
    while k < t.succ.len()
        invariant
            v0.task_wf(i as int),
            map@.same_structure(v0),
            *t == map@.tasks[i as int],
            i < v0.tasks.len(),
            k <= t.succ@.len(),
            lf == latest_finish_upto(v0, d as int, i as int, k as int),
            forall|j: int|
                #![trigger map@.tasks[j]]
                0 <= j < v0.tasks.len() && v0.rank(i as int) < v0.rank(j)
                    ==> map@.tasks[j].late_start == latest_start(v0, d as int, j),
        decreases t.succ@.len() - k,
    {
        let s = t.succ[k];
        assert(v0.tasks[i as int].succ@[k as int] == s);
        let l = map.task(s).late_start;
        if l < lf {
            lf = l;
        }
        k = k + 1;
    }
    proof {
        lemma_forward_end(v0);
        lemma_late_bounds(v0, d as int, i as int, t.succ@.len() as int);
        lemma_early_bounds(v0, i as int);
    }
    (lf - t.duration, lf)
}

/// After the forward pass, END's recorded earliest start is its earliest
/// finish.
pub(crate) proof fn lemma_forward_end(v: TaskMapView)
    requires
        v.wf(),
        v.anchored(),
        forward_done(v),
    ensures
        project_end(v) == earliest_finish(v, v.end->0 as int),
{
    assert(v.tasks[v.end->0 as int].duration == 0);
}

/// Structure alone decides the earliest and latest times.
pub(crate) proof fn lemma_same_structure_times(a: TaskMapView, b: TaskMapView)
    requires
        a.wf(),
        b.same_structure(a),
    ensures
        forall|i: int| 0 <= i < a.tasks.len() ==> earliest_start(a, i) == #[trigger] earliest_start(b, i),
        forall|i: int| 0 <= i < a.tasks.len() ==> earliest_finish(a, i) == #[trigger] earliest_finish(b, i),
        forall|d: int, i: int| 0 <= i < a.tasks.len() ==> latest_start(a, d, i) == #[trigger] latest_start(b, d, i),
        forall|d: int, i: int| 0 <= i < a.tasks.len() ==> latest_finish(a, d, i) == #[trigger] latest_finish(b, d, i),
{
    assert forall|i: int| 0 <= i < a.tasks.len() implies earliest_start(a, i) == #[trigger] earliest_start(b, i)
        && earliest_finish(a, i) == earliest_finish(b, i) by {
        lemma_early_same(a, b, i, a.tasks[i].pred@.len() as int);
        assert(b.tasks[i].same_shape(a.tasks[i]));
    }
    assert forall|i: int| 0 <= i < a.tasks.len() implies #[trigger] earliest_finish(a, i) == earliest_finish(b, i) by {
        assert(earliest_start(a, i) == earliest_start(b, i));
        assert(b.tasks[i].same_shape(a.tasks[i]));
    }
    assert forall|d: int, i: int| 0 <= i < a.tasks.len() implies latest_finish(a, d, i) == #[trigger] latest_finish(b, d, i)
        by {
        lemma_late_same(a, b, d, i, a.tasks[i].succ@.len() as int);
        assert(b.tasks[i].same_shape(a.tasks[i]));
    }
    assert forall|d: int, i: int| 0 <= i < a.tasks.len() implies latest_start(a, d, i) == #[trigger] latest_start(b, d, i)
        by {
        assert(latest_finish(a, d, i) == latest_finish(b, d, i));
        assert(b.tasks[i].same_shape(a.tasks[i]));
    }
}

proof fn lemma_early_same(a: TaskMapView, b: TaskMapView, i: int, k: int)
    requires
        a.wf(),
        b.same_structure(a),
        0 <= i < a.tasks.len(),
        0 <= k <= a.tasks[i].pred@.len(),
    ensures
        earliest_start_upto(a, i, k) == earliest_start_upto(b, i, k),
    decreases a.rank(i), k,
{
    assert(b.tasks[i].same_shape(a.tasks[i]));
    if k > 0 {
        lemma_early_same(a, b, i, k - 1);
        assert(a.task_wf(i));
        let p = a.tasks[i].pred@[k - 1] as int;
        assert(b.tasks[i].pred@[k - 1] == p);
        lemma_early_same(a, b, p, a.tasks[p].pred@.len() as int);
        assert(b.tasks[p].same_shape(a.tasks[p]));
        assert(a.rank(p) == b.rank(p) && a.rank(i) == b.rank(i));
        assert(earliest_finish(a, p) == earliest_finish(b, p));
    }
}

proof fn lemma_late_same(a: TaskMapView, b: TaskMapView, d: int, i: int, k: int)
    requires
        a.wf(),
        b.same_structure(a),
        0 <= i < a.tasks.len(),
        0 <= k <= a.tasks[i].succ@.len(),
    ensures
        latest_finish_upto(a, d, i, k) == latest_finish_upto(b, d, i, k),
    decreases a.tasks.len() - a.rank(i), k,
{
    assert(b.tasks[i].same_shape(a.tasks[i]));
    if k > 0 {
        lemma_late_same(a, b, d, i, k - 1);
        assert(a.task_wf(i));
        let s = a.tasks[i].succ@[k - 1] as int;
        assert(b.tasks[i].succ@[k - 1] == s);
        lemma_late_same(a, b, d, s, a.tasks[s].succ@.len() as int);
        assert(b.tasks[s].same_shape(a.tasks[s]));
        assert(a.rank(s) == b.rank(s) && a.rank(i) == b.rank(i));
        assert(latest_start(a, d, s) == latest_start(b, d, s));
    }
}

/// Earliest times are never negative, and a finish is never before its start.
pub(crate) proof fn lemma_early_bounds(v: TaskMapView, i: int)
    ensures
        0 <= earliest_start(v, i) <= earliest_finish(v, i),
{
    lemma_upto_nonneg(v, i, v.tasks[i].pred@.len() as int);
}

proof fn lemma_upto_nonneg(v: TaskMapView, i: int, k: int)
    ensures
        earliest_start_upto(v, i, k) >= 0,
    decreases k,
{
    if k > 0 {
        lemma_upto_nonneg(v, i, k - 1);
    }
}

/// A task starts no earlier than any of its first `k` predecessors finishes.
pub(crate) proof fn lemma_pred_bound(v: TaskMapView, i: int, k: int, m: int)
    requires
        v.wf(),
        0 <= i < v.tasks.len(),
        0 <= m < k <= v.tasks[i].pred@.len(),
    ensures
        earliest_finish(v, v.tasks[i].pred@[m] as int) <= earliest_start_upto(v, i, k),
    decreases k,
{
    assert(v.task_wf(i));
    if m < k - 1 {
        lemma_pred_bound(v, i, k - 1, m);
    }
}

/// Every task finishes no later than END, whose earliest finish is the
/// project end.
pub(crate) proof fn lemma_end_bound(v: TaskMapView, i: int)
    requires
        v.wf(),
        v.anchored(),
        0 <= i < v.tasks.len(),
    ensures
        earliest_finish(v, i) <= earliest_finish(v, v.end->0 as int),
    decreases v.tasks.len() - v.rank(i),
{
    if !v.is_end(i) {
        assert(v.task_wf(i));
        let s = v.tasks[i].succ@[0] as int;
        assert(v.tasks[i].succ@.contains(s as usize));
        assert(v.tasks[s].pred@.contains(i as usize));
        let m = choose|m: int| 0 <= m < v.tasks[s].pred@.len() && v.tasks[s].pred@[m] == i;
        lemma_pred_bound(v, s, v.tasks[s].pred@.len() as int, m);
        lemma_early_bounds(v, s);
        lemma_end_bound(v, s);
    }
}

/// For the project end `d` that the forward pass finds, the latest finish
/// of a task lies between its earliest finish and `d`.
pub(crate) proof fn lemma_late_bounds(v: TaskMapView, d: int, i: int, k: int)
    requires
        v.wf(),
        v.anchored(),
        d == earliest_finish(v, v.end->0 as int),
        0 <= i < v.tasks.len(),
        0 <= k <= v.tasks[i].succ@.len(),
    ensures
        earliest_finish(v, i) <= latest_finish_upto(v, d, i, k) <= d,
        k == v.tasks[i].succ@.len() ==> earliest_start(v, i) <= latest_start(v, d, i),
    decreases v.tasks.len() - v.rank(i), k,
{
    if k == 0 {
        lemma_end_bound(v, i);
    } else {
        lemma_late_bounds(v, d, i, k - 1);
        assert(v.task_wf(i));
        let s = v.tasks[i].succ@[k - 1] as int;
        lemma_late_bounds(v, d, s, v.tasks[s].succ@.len() as int);
        assert(v.tasks[i].succ@.contains(s as usize));
        assert(v.tasks[s].pred@.contains(i as usize));
        let m = choose|m: int| 0 <= m < v.tasks[s].pred@.len() && v.tasks[s].pred@[m] == i;
        lemma_pred_bound(v, s, v.tasks[s].pred@.len() as int, m);
    }
}

/// Structure alone decides well-formedness.
pub(crate) proof fn lemma_same_structure_wf(a: TaskMapView, b: TaskMapView)
    requires
        a.wf(),
        b.same_structure(a),
    ensures
        b.wf(),
{
    assert forall|i: int| 0 <= i < b.tasks.len() implies b.task_wf(i) by {
        assert(a.task_wf(i));
        let t = b.tasks[i];
        assert forall|k: int| #![trigger t.pred@[k]] 0 <= k < t.pred@.len() implies {
            &&& t.pred@[k] < b.tasks.len()
            &&& t.pred_names@[k]@ == b.tasks[t.pred@[k] as int].id@
            &&& b.rank(t.pred@[k] as int) < b.rank(i)
        } by {
            assert(a.tasks[i].pred@[k] == t.pred@[k]);
            assert(b.tasks[t.pred@[k] as int].same_shape(a.tasks[t.pred@[k] as int]));
        }
        assert forall|k: int| #![trigger t.succ@[k]] 0 <= k < t.succ@.len() implies {
            &&& t.succ@[k] < b.tasks.len()
            &&& t.succ_names@[k]@ == b.tasks[t.succ@[k] as int].id@
            &&& b.rank(i) < b.rank(t.succ@[k] as int)
        } by {
            assert(a.tasks[i].succ@[k] == t.succ@[k]);
            assert(b.tasks[t.succ@[k] as int].same_shape(a.tasks[t.succ@[k] as int]));
        }
    }
    assert forall|i: int, j: int|
        0 <= i < b.tasks.len() && 0 <= j < b.tasks.len() && i != j implies b.tasks[i].id@
        != b.tasks[j].id@ by {
        assert(b.tasks[i].same_shape(a.tasks[i]));
        assert(b.tasks[j].same_shape(a.tasks[j]));
    }
    assert forall|i: int, j: int|
        0 <= i < b.tasks.len() && 0 <= j < b.tasks.len() implies (b.tasks[i].pred@.contains(
        j as usize,
    ) <==> b.tasks[j].succ@.contains(i as usize)) by {
        assert(b.tasks[i].same_shape(a.tasks[i]));
        assert(b.tasks[j].same_shape(a.tasks[j]));
        assert(a.tasks[i].pred@.contains(j as usize) <==> a.tasks[j].succ@.contains(i as usize));
    }
    if let Some(s) = b.start {
        assert(b.tasks[s as int].same_shape(a.tasks[s as int]));
    }
    if let Some(e) = b.end {
        assert(b.tasks[e as int].same_shape(a.tasks[e as int]));
    }
}

} // verus!
