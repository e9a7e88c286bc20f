use crate::error::ScheduleError;
use crate::task::Task;
use vstd::prelude::*;

verus! {

/// Identifier of the synthetic source task.
pub const START_ID: &'static str = "START";

/// Identifier of the synthetic sink task.
pub const END_ID: &'static str = "END";

/// The identifiers of a sequence of strings.
pub open spec fn names_of(s: Seq<String>) -> Seq<Seq<char>> {
    s.map_values(|x: String| x@)
}

/// `s` with every repeated entry dropped, first occurrences kept in order.
pub open spec fn first_occurrences(s: Seq<Seq<char>>) -> Seq<Seq<char>>
    decreases s.len(),
{
    if s.len() == 0 {
        s
    } else {
        let r = first_occurrences(s.drop_last());
        if r.contains(s.last()) {
            r
        } else {
            r.push(s.last())
        }
    }
}

/// Positions, among the first `k` tasks and in arena order, of those
/// without predecessors.
pub open spec fn sources(tasks: Seq<Task>, k: int) -> Seq<usize>
    decreases k,
{
    if k <= 0 {
        Seq::empty()
    } else if tasks[k - 1].pred@.len() == 0 {
        sources(tasks, k - 1).push((k - 1) as usize)
    } else {
        sources(tasks, k - 1)
    }
}

/// Positions, among the first `k` tasks and in arena order, of those
/// without successors.
pub open spec fn sinks(tasks: Seq<Task>, k: int) -> Seq<usize>
    decreases k,
{
    if k <= 0 {
        Seq::empty()
    } else if tasks[k - 1].succ@.len() == 0 {
        sinks(tasks, k - 1).push((k - 1) as usize)
    } else {
        sinks(tasks, k - 1)
    }
}

/// The registry: an arena of tasks, addressed by position, with the
/// positions of the two anchors once they exist.
pub struct TaskMap {
    tasks: Vec<Task>,
    start: Option<usize>,
    end: Option<usize>,
}

/// Mathematical model of a `TaskMap`.
pub struct TaskMapView {
    pub tasks: Seq<Task>,
    pub start: Option<usize>,
    pub end: Option<usize>,
}

impl TaskMapView {
    pub open spec fn is_start(self, i: int) -> bool {
        self.start matches Some(s) && s == i
    }

    pub open spec fn is_end(self, i: int) -> bool {
        self.end matches Some(e) && e == i
    }

    /// A topological rank: START comes first, every other task after the
    /// tasks inserted before it.  Every edge goes up in rank.
    pub open spec fn rank(self, i: int) -> nat {
        if self.is_start(i) {
            0
        } else {
            (i + 1) as nat
        }
    }

    pub open spec fn has_id(self, id: Seq<char>) -> bool {
        exists|i: int| 0 <= i < self.tasks.len() && self.tasks[i].id@ == id
    }

    /// The edges of task `i` are in range, free of repeats, named after
    /// their targets, and go up in rank.
    pub open spec fn task_wf(self, i: int) -> bool {
        let t = self.tasks[i];
        &&& t.pred@.len() == t.pred_names@.len()
        &&& t.succ@.len() == t.succ_names@.len()
        &&& t.pred@.no_duplicates()
        &&& t.succ@.no_duplicates()
        &&& forall|k: int|
            #![trigger t.pred@[k]]
            0 <= k < t.pred@.len() ==> {
                &&& t.pred@[k] < self.tasks.len()
                &&& t.pred_names@[k]@ == self.tasks[t.pred@[k] as int].id@
                &&& self.rank(t.pred@[k] as int) < self.rank(i)
            }
        &&& forall|k: int|
            #![trigger t.succ@[k]]
            0 <= k < t.succ@.len() ==> {
                &&& t.succ@[k] < self.tasks.len()
                &&& t.succ_names@[k]@ == self.tasks[t.succ@[k] as int].id@
                &&& self.rank(i) < self.rank(t.succ@[k] as int)
            }
    }

    /// The registry invariant: unique identifiers, well-formed and
    /// symmetric edges, and anchors (where present) of duration 0 with
    /// their reserved identifiers, START without predecessors.
    pub open spec fn wf(self) -> bool {
        &&& self.tasks.len() <= usize::MAX
        &&& forall|i: int, j: int|
            0 <= i < self.tasks.len() && 0 <= j < self.tasks.len() && i != j
                ==> self.tasks[i].id@ != self.tasks[j].id@
        &&& forall|i: int| 0 <= i < self.tasks.len() ==> self.task_wf(i)
        &&& forall|i: int, j: int|
            #![trigger self.tasks[i].pred@.contains(j as usize), self.tasks[j]]
            #![trigger self.tasks[j].succ@.contains(i as usize), self.tasks[i]]
            0 <= i < self.tasks.len() && 0 <= j < self.tasks.len() ==> (
            self.tasks[i].pred@.contains(j as usize) <==> self.tasks[j].succ@.contains(
                i as usize,
            ))
        &&& self.start matches Some(s) ==> {
            &&& s < self.tasks.len()
            &&& self.tasks[s as int].id@ == START_ID@
            &&& self.tasks[s as int].duration == 0
            &&& self.tasks[s as int].pred@.len() == 0
        }
        &&& self.end matches Some(e) ==> {
            &&& e < self.tasks.len()
            &&& self.tasks[e as int].id@ == END_ID@
            &&& self.tasks[e as int].duration == 0
        }
    }

    /// Both anchors are present, START is the only task without
    /// predecessors and END the only one without successors.
    pub open spec fn anchored(self) -> bool {
        &&& self.start is Some
        &&& self.end is Some
        &&& self.tasks[self.end->0 as int].succ@.len() == 0
        &&& forall|i: int|
            0 <= i < self.tasks.len() && !self.is_start(i) ==> self.tasks[i].pred@.len() > 0
        &&& forall|i: int|
            0 <= i < self.tasks.len() && !self.is_end(i) ==> self.tasks[i].succ@.len() > 0
    }

    /// Same tasks, identifiers, durations, edges and anchors; times may differ.
    pub open spec fn same_structure(self, other: TaskMapView) -> bool {
        &&& self.tasks.len() == other.tasks.len()
        &&& self.start == other.start
        &&& self.end == other.end
        &&& forall|i: int| 0 <= i < self.tasks.len() ==> self.tasks[i].same_shape(other.tasks[i])
    }

    /// What inserting `id` with dependencies `deps` returns.
    pub open spec fn insert_result(self, id: Seq<char>, deps: Seq<Seq<char>>) -> Result<
        (),
        ScheduleError,
    > {
        if self.has_id(id) {
            Err(ScheduleError::DuplicateId)
        } else if exists|k: int| 0 <= k < deps.len() && !self.has_id(deps[k]) {
            Err(ScheduleError::UnknownDependency)
        } else {
            Ok(())
        }
    }

    /// `after` is `self` with a new last task `id` of length `duration`,
    /// whose predecessors are the distinct `deps` in order of first
    /// mention, each of which gains it as its last successor.
    pub open spec fn inserted(
        self,
        after: TaskMapView,
        id: Seq<char>,
        duration: u32,
        deps: Seq<Seq<char>>,
    ) -> bool {
        let n = self.tasks.len();
        let t = after.tasks[n as int];
        &&& after.tasks.len() == n + 1
        &&& after.start == self.start
        &&& after.end == self.end
        &&& t.id@ == id
        &&& t.duration == duration
        &&& t.early_start == 0
        &&& t.early_finish == 0
        &&& t.late_start == u32::MAX
        &&& t.late_finish == u32::MAX
        &&& t.succ@.len() == 0
        &&& names_of(t.pred_names@) == first_occurrences(deps)
        &&& forall|j: int|
            #![trigger after.tasks[j]]
            0 <= j < n ==> if deps.contains(self.tasks[j].id@) {
                after.tasks[j].gained_succ(self.tasks[j], n as usize, id)
            } else {
                after.tasks[j] == self.tasks[j]
            }
    }
}

impl TaskMapView {
    /// `after` is `self` with START appended: it precedes every task that
    /// had no predecessor, in arena order.
    pub open spec fn started(self, after: TaskMapView) -> bool {
        let n = self.tasks.len();
        let t = after.tasks[n as int];
        &&& after.tasks.len() == n + 1
        &&& after.start == Some(n as usize)
        &&& after.end == self.end
        &&& t.id@ == START_ID@
        &&& t.duration == 0
        &&& t.early_start == 0
        &&& t.early_finish == 0
        &&& t.late_start == u32::MAX
        &&& t.late_finish == u32::MAX
        &&& t.pred@.len() == 0
        &&& t.pred_names@.len() == 0
        &&& t.succ@ == sources(self.tasks, n as int)
        &&& forall|j: int|
            #![trigger after.tasks[j]]
            0 <= j < n ==> if self.tasks[j].pred@.len() == 0 {
                after.tasks[j].gained_pred(self.tasks[j], n as usize, START_ID@)
            } else {
                after.tasks[j] == self.tasks[j]
            }
    }

    /// `after` is `self` with END appended: it follows every task that had
    /// no successor, in arena order.
    pub open spec fn ended(self, after: TaskMapView) -> bool {
        let n = self.tasks.len();
        let t = after.tasks[n as int];
        &&& after.tasks.len() == n + 1
        &&& after.start == self.start
        &&& after.end == Some(n as usize)
        &&& t.id@ == END_ID@
        &&& t.duration == 0
        &&& t.early_start == 0
        &&& t.early_finish == 0
        &&& t.late_start == u32::MAX
        &&& t.late_finish == u32::MAX
        &&& t.succ@.len() == 0
        &&& t.succ_names@.len() == 0
        &&& t.pred@ == sinks(self.tasks, n as int)
        &&& forall|j: int|
            #![trigger after.tasks[j]]
            0 <= j < n ==> if self.tasks[j].succ@.len() == 0 {
                after.tasks[j].gained_succ(self.tasks[j], n as usize, END_ID@)
            } else {
                after.tasks[j] == self.tasks[j]
            }
    }
}

impl View for TaskMap {
    type V = TaskMapView;

    closed spec fn view(&self) -> TaskMapView {
        TaskMapView { tasks: self.tasks@, start: self.start, end: self.end }
    }
}

impl TaskMap {
    pub open spec fn wf(&self) -> bool {
        self@.wf()
    }

    /// An empty registry.
    pub fn new() -> (m: TaskMap)
        ensures
            m.wf(),
            m@.tasks.len() == 0,
            m@.start is None,
            m@.end is None,
    {
        TaskMap { tasks: Vec::new(), start: None, end: None }
    }

    /// Number of tasks, anchors included.
    pub fn len(&self) -> (n: usize)
        ensures
            n == self@.tasks.len(),
    {
        self.tasks.len()
    }

    /// Position of the task named `id`.
    pub fn find(&self, id: &String) -> (r: Option<usize>)
        ensures
            r is None <==> !self@.has_id(id@),
            r matches Some(i) ==> i < self@.tasks.len() && self@.tasks[i as int].id@ == id@,
    {
        let mut i: usize = 0;
        while i < self.tasks.len()
            invariant
                i <= self.tasks.len(),
                forall|j: int| 0 <= j < i ==> self.tasks@[j].id@ != id@,
            decreases self.tasks.len() - i,
        {
            if self.tasks[i].id == *id {
                assert(self@.tasks[i as int].id@ == id@);
                return Some(i);
            }
            i = i + 1;
        }
        None
    }

    /// The task named `id`, if any.
    pub fn get(&self, id: &str) -> (r: Option<&Task>)
        ensures
            r is Some <==> self@.has_id(id@),
            r matches Some(t) ==> t.id@ == id@ && self@.tasks.contains(*t),
    {
        let key = id.to_owned();
        match self.find(&key) {
            Some(i) => Some(&self.tasks[i]),
            None => None,
        }
    }

    /// The task at position `i`.
    pub fn task(&self, i: usize) -> (t: &Task)
        requires
            i < self@.tasks.len(),
        ensures
            *t == self@.tasks[i as int],
    {
        &self.tasks[i]
    }

    /// All tasks, in arena order.
    pub fn tasks(&self) -> (r: &Vec<Task>)
        ensures
            r@ == self@.tasks,
    {
        &self.tasks
    }

    /// Position of START, once it was added.
    pub fn start_index(&self) -> (r: Option<usize>)
        ensures
            r == self@.start,
    {
        self.start
    }

    /// Position of END, once it was added.
    pub fn end_index(&self) -> (r: Option<usize>)
        ensures
            r == self@.end,
    {
        self.end
    }

    /// Adds task `id` of length `duration`, depending on the tasks named in
    /// `deps` (a name mentioned twice counts once).  Refused if `id` is
    /// taken or if some dependency is not registered yet; the registry is
    /// then left as it was.
    pub fn insert(&mut self, id: String, duration: u32, deps: &Vec<String>) -> (r: Result<
        (),
        ScheduleError,
    >)
        requires
            old(self).wf(),
        ensures
            final(self).wf(),
            r == old(self)@.insert_result(id@, names_of(deps@)),
            r is Ok ==> old(self)@.inserted(final(self)@, id@, duration, names_of(deps@)),
            r is Err ==> final(self)@ == old(self)@,
    {
        if self.find(&id).is_some() {
            return Err(ScheduleError::DuplicateId);
        }
        let ghost dv = names_of(deps@);
        let ghost before = self@;
        let mut pred: Vec<usize> = Vec::new();
        let mut pred_names: Vec<String> = Vec::new();
        let mut k: usize = 0;
        while k < deps.len()
            invariant
                self@ == before,
                before.wf(),
                !before.has_id(id@),
                dv == names_of(deps@),
                k <= deps.len(),
                pred@.len() == pred_names@.len(),
                pred@.no_duplicates(),
                names_of(pred_names@) == first_occurrences(dv.take(k as int)),
                forall|m: int|
                    #![trigger pred@[m]]
                    0 <= m < pred@.len() ==> pred@[m] < before.tasks.len()
                        && pred_names@[m]@ == before.tasks[pred@[m] as int].id@,
                forall|m: int| 0 <= m < k ==> before.has_id(#[trigger] dv[m]),
            decreases deps.len() - k,
        {
            assert(dv.take(k + 1).drop_last() =~= dv.take(k as int));
            assert(dv[k as int] == deps@[k as int]@);
            match self.find(&deps[k]) {
                None => {
                    assert(before.insert_result(id@, dv) == Err::<(), ScheduleError>(
                        ScheduleError::UnknownDependency,
                    ));
                    return Err(ScheduleError::UnknownDependency);
                },
                Some(j) => {
                    proof {
                        lemma_names_contain_index(before, pred@, pred_names@, j);
                    }
                    if !holds_index(&pred, j) {
                        let ghost prev = pred_names@;
                        pred.push(j);
                        pred_names.push(deps[k].clone());
                        assert(names_of(pred_names@) =~= names_of(prev).push(dv[k as int]));
                    }
                },
            }
            k = k + 1;
        }
        assert(dv.take(k as int) =~= dv);
        assert(before.insert_result(id@, dv) == Ok::<(), ScheduleError>(()));
        let n = self.tasks.len();
        proof {
            lemma_first_occurrences_contains(dv);
            assert forall|j: int| 0 <= j < n implies pred@.contains(j as usize) == dv.contains(
                before.tasks[j].id@,
            ) by {
                lemma_names_contain_index(before, pred@, pred_names@, j as usize);
            }
        }
        let mut m: usize = 0;
        while m < pred.len()
            invariant
                before.wf(),
                n == before.tasks.len(),
                self@.tasks.len() == n,
                self@.start == before.start,
                self@.end == before.end,
                m <= pred.len(),
                pred@.no_duplicates(),
                forall|q: int| 0 <= q < pred@.len() ==> #[trigger] pred@[q] < n,
                forall|j: int|
                    #![trigger self@.tasks[j]]
                    0 <= j < n ==> if pred@.take(m as int).contains(j as usize) {
                        self@.tasks[j].gained_succ(before.tasks[j], n as usize, id@)
                    } else {
                        self@.tasks[j] == before.tasks[j]
                    },
            decreases pred.len() - m,
        {
            let j = pred[m];
            assert(pred@.take(m + 1) =~= pred@.take(m as int).push(j));
            assert(!pred@.take(m as int).contains(j));
            let ghost prior = self.tasks@[j as int];
            let ghost taken = pred@.take(m as int);
            self.tasks[j].succ.push(n);
            self.tasks[j].succ_names.push(id.clone());
            assert(self.tasks@[j as int].succ_names@.drop_last() =~= prior.succ_names@);
            assert(self@.tasks[j as int].gained_succ(before.tasks[j as int], n, id@));
            assert forall|q: int| 0 <= q < n && q != j implies #[trigger] taken.push(j).contains(q as usize)
                == taken.contains(q as usize) by {
                if taken.push(j).contains(q as usize) {
                    let i = choose|i: int| 0 <= i < taken.len() + 1 && taken.push(j)[i] == q;
                    assert(taken[i] == q);
                }
                if taken.contains(q as usize) {
                    let i = choose|i: int| 0 <= i < taken.len() && taken[i] == q;
                    assert(taken.push(j)[i] == q);
                }
            }
            assert(taken.push(j)[taken.len() as int] == j);
            m = m + 1;
        }
        assert(pred@.take(m as int) =~= pred@);
        let mut t = Task::new(id, duration);
        t.pred = pred;
        t.pred_names = pred_names;
        self.tasks.push(t);
        proof {
            assert(self.tasks@.len() == self.tasks.len());
            lemma_inserted_wf(before, self@, id@, duration, dv);
        }
        Ok(())
    }

    /// Whether both anchors are present and are the only task without
    /// predecessors and the only one without successors.
    pub fn is_anchored(&self) -> (r: bool)
        requires
            self.wf(),
        ensures
            r == self@.anchored(),
    {
        let (s, e) = match (self.start, self.end) {
            (Some(s), Some(e)) => (s, e),
            _ => {
                return false;
            },
        };
        if self.tasks[e].succ.len() != 0 {
            return false;
        }
        let mut i: usize = 0;
        while i < self.tasks.len()
            invariant
                self.wf(),
                self@.start == Some(s),
                self@.end == Some(e),
                self@.tasks[e as int].succ@.len() == 0,
                i <= self.tasks.len(),
                forall|j: int|
                    0 <= j < i && !self@.is_start(j) ==> #[trigger] self@.tasks[j].pred@.len() > 0,
                forall|j: int|
                    0 <= j < i && !self@.is_end(j) ==> #[trigger] self@.tasks[j].succ@.len() > 0,
            decreases self.tasks.len() - i,
        {
            if i != s && self.tasks[i].pred.len() == 0 {
                assert(!self@.is_start(i as int) && self@.tasks[i as int].pred@.len() == 0);
                return false;
            }
            if i != e && self.tasks[i].succ.len() == 0 {
                assert(!self@.is_end(i as int) && self@.tasks[i as int].succ@.len() == 0);
                return false;
            }
            i = i + 1;
        }
        true
    }

    /// Overwrites the earliest times of task `i`.
    pub(crate) fn set_early(&mut self, i: usize, early_start: u32, early_finish: u32)
        requires
            i < old(self)@.tasks.len(),
        ensures
            final(self)@ == (TaskMapView {
                tasks: old(self)@.tasks.update(
                    i as int,
                    Task { early_start, early_finish, ..old(self)@.tasks[i as int] },
                ),
                ..old(self)@
            }),
    {
        self.tasks[i].early_start = early_start;
        self.tasks[i].early_finish = early_finish;
        assert(self.tasks@ =~= old(self).tasks@.update(
            i as int,
            Task { early_start, early_finish, ..old(self).tasks@[i as int] },
        ));
    }

    /// Overwrites the latest times of task `i`.
    pub(crate) fn set_late(&mut self, i: usize, late_start: u32, late_finish: u32)
        requires
            i < old(self)@.tasks.len(),
        ensures
            final(self)@ == (TaskMapView {
                tasks: old(self)@.tasks.update(
                    i as int,
                    Task { late_start, late_finish, ..old(self)@.tasks[i as int] },
                ),
                ..old(self)@
            }),
    {
        self.tasks[i].late_start = late_start;
        self.tasks[i].late_finish = late_finish;
        assert(self.tasks@ =~= old(self).tasks@.update(
            i as int,
            Task { late_start, late_finish, ..old(self).tasks@[i as int] },
        ));
    }
}

/// Adds the START anchor, of duration 0, as the one predecessor of every
/// task that has none.  Refused, leaving the registry as it was, if a task
/// is already named `START`.
pub fn add_start(map: &mut TaskMap) -> (r: Result<(), ScheduleError>)
    requires
        old(map).wf(),
    ensures
        final(map).wf(),
        r is Err <==> old(map)@.has_id(START_ID@),
        r is Err ==> r == Err::<(), ScheduleError>(ScheduleError::DuplicateId) && final(map)@
            == old(map)@,
        r is Ok ==> old(map)@.started(final(map)@),
{
    let key = START_ID.to_string();
    if map.find(&key).is_some() {
        return Err(ScheduleError::DuplicateId);
    }
    let ghost before = map@;
    let n = map.tasks.len();
    let mut start = Task::new(key, 0);
    let mut i: usize = 0;
    while i < n
        invariant
            before.wf(),
            n == before.tasks.len(),
            map@.tasks.len() == n,
            map@.start == before.start,
            map@.end == before.end,
            i <= n,
            start.id@ == START_ID@,
            start.duration == 0,
            start.early_start == 0 && start.early_finish == 0,
            start.late_start == u32::MAX && start.late_finish == u32::MAX,
            start.pred@.len() == 0 && start.pred_names@.len() == 0,
            start.succ@ == sources(before.tasks, i as int),
            start.succ_names@.len() == start.succ@.len(),
            forall|k: int|
                #![trigger start.succ@[k]]
                0 <= k < start.succ@.len() ==> start.succ_names@[k]@ == before.tasks[start.succ@[
                    k
                ] as int].id@,
            forall|j: int|
                #![trigger map@.tasks[j]]
                0 <= j < n ==> if j < i && before.tasks[j].pred@.len() == 0 {
                    map@.tasks[j].gained_pred(before.tasks[j], n, START_ID@)
                } else {
                    map@.tasks[j] == before.tasks[j]
                },
        decreases n - i,
    {
        if map.tasks[i].pred.len() == 0 {
            let ghost prior = map.tasks@[i as int];
            let ghost names = start.succ_names@;
            map.tasks[i].pred.push(n);
            map.tasks[i].pred_names.push(START_ID.to_string());
            assert(map.tasks@[i as int].pred_names@.drop_last() =~= prior.pred_names@);
            start.succ.push(i);
            start.succ_names.push(map.tasks[i].id.clone());
            assert(start.succ_names@.drop_last() =~= names);
        }
        i = i + 1;
    }
    map.tasks.push(start);
    map.start = Some(n);
    proof {
        assert(map.tasks@.len() == map.tasks.len());
        lemma_started_wf(before, map@);
    }
    Ok(())
}

/// Adds the END anchor, of duration 0, as the one successor of every task
/// that has none.  Refused, leaving the registry as it was, if a task is
/// already named `END`.
pub fn add_end(map: &mut TaskMap) -> (r: Result<(), ScheduleError>)
    requires
        old(map).wf(),
    ensures
        final(map).wf(),
        r is Err <==> old(map)@.has_id(END_ID@),
        r is Err ==> r == Err::<(), ScheduleError>(ScheduleError::DuplicateId) && final(map)@
            == old(map)@,
        r is Ok ==> old(map)@.ended(final(map)@),
{
    let key = END_ID.to_string();
    if map.find(&key).is_some() {
        return Err(ScheduleError::DuplicateId);
    }
    let ghost before = map@;
    let n = map.tasks.len();
    let mut end = Task::new(key, 0);
    let mut i: usize = 0;
    while i < n
        invariant
            before.wf(),
            n == before.tasks.len(),
            map@.tasks.len() == n,
            map@.start == before.start,
            map@.end == before.end,
            i <= n,
            end.id@ == END_ID@,
            end.duration == 0,
            end.early_start == 0 && end.early_finish == 0,
            end.late_start == u32::MAX && end.late_finish == u32::MAX,
            end.succ@.len() == 0 && end.succ_names@.len() == 0,
            end.pred@ == sinks(before.tasks, i as int),
            end.pred_names@.len() == end.pred@.len(),
            forall|k: int|
                #![trigger end.pred@[k]]
                0 <= k < end.pred@.len() ==> end.pred_names@[k]@ == before.tasks[end.pred@[
                    k
                ] as int].id@,
            forall|j: int|
                #![trigger map@.tasks[j]]
                0 <= j < n ==> if j < i && before.tasks[j].succ@.len() == 0 {
                    map@.tasks[j].gained_succ(before.tasks[j], n, END_ID@)
                } else {
                    map@.tasks[j] == before.tasks[j]
                },
        decreases n - i,
    {
        if map.tasks[i].succ.len() == 0 {
            let ghost prior = map.tasks@[i as int];
            let ghost names = end.pred_names@;
            map.tasks[i].succ.push(n);
            map.tasks[i].succ_names.push(END_ID.to_string());
            assert(map.tasks@[i as int].succ_names@.drop_last() =~= prior.succ_names@);
            end.pred.push(i);
            end.pred_names.push(map.tasks[i].id.clone());
            assert(end.pred_names@.drop_last() =~= names);
        }
        i = i + 1;
    }
    map.tasks.push(end);
    map.end = Some(n);
    proof {
        assert(map.tasks@.len() == map.tasks.len());
        lemma_ended_wf(before, map@);
    }
    Ok(())
}

/// Whether `v` lists `j`.
fn holds_index(v: &Vec<usize>, j: usize) -> (r: bool)
    ensures
        r == v@.contains(j),
{
    let mut i: usize = 0;
    while i < v.len()
        invariant
            i <= v.len(),
            forall|q: int| 0 <= q < i ==> v@[q] != j,
        decreases v.len() - i,
    {
        if v[i] == j {
            assert(v@[i as int] == j);
            return true;
        }
        i = i + 1;
    }
    false
}

pub(crate) proof fn lemma_push_contains<A>(s: Seq<A>, x: A, y: A)
    ensures
        s.push(x).contains(y) <==> (s.contains(y) || y == x),
{
    if s.push(x).contains(y) {
        let i = choose|i: int| 0 <= i < s.len() + 1 && s.push(x)[i] == y;
        if i < s.len() {
            assert(s[i] == y);
        }
    }
    if s.contains(y) {
        let i = choose|i: int| 0 <= i < s.len() && s[i] == y;
        assert(s.push(x)[i] == y);
    }
    assert(s.push(x)[s.len() as int] == x);
}

/// With identifiers unique, a list of positions holds `j` exactly when
/// the matching list of names holds the identifier of `j`.
proof fn lemma_names_contain_index(v: TaskMapView, pred: Seq<usize>, names: Seq<String>, j: usize)
    requires
        v.wf(),
        j < v.tasks.len(),
        pred.len() == names.len(),
        forall|m: int|
            #![trigger pred[m]]
            0 <= m < pred.len() ==> pred[m] < v.tasks.len() && names[m]@ == v.tasks[pred[m] as int].id@,
    ensures
        pred.contains(j) <==> names_of(names).contains(v.tasks[j as int].id@),
{
    if pred.contains(j) {
        let m = choose|m: int| 0 <= m < pred.len() && pred[m] == j;
        assert(names_of(names)[m] == v.tasks[j as int].id@);
    }
    if names_of(names).contains(v.tasks[j as int].id@) {
        let m = choose|m: int|
            0 <= m < names_of(names).len() && names_of(names)[m] == v.tasks[j as int].id@;
        assert(pred[m] < v.tasks.len());
        assert(pred[m] == j);
    }
}

proof fn lemma_first_occurrences_contains(s: Seq<Seq<char>>)
    ensures
        forall|x: Seq<char>| first_occurrences(s).contains(x) <==> s.contains(x),
    decreases s.len(),
{
    if s.len() > 0 {
        lemma_first_occurrences_contains(s.drop_last());
        let r = first_occurrences(s.drop_last());
        assert forall|x: Seq<char>| first_occurrences(s).contains(x) <==> s.contains(x) by {
            if s.contains(x) {
                let i = choose|i: int| 0 <= i < s.len() && s[i] == x;
                if i < s.len() - 1 {
                    assert(s.drop_last()[i] == x);
                }
            }
            if s.drop_last().contains(x) {
                let i = choose|i: int| 0 <= i < s.drop_last().len() && s.drop_last()[i] == x;
                assert(s[i] == x);
            }
            if x == s.last() {
                assert(s[s.len() - 1] == x);
                if !r.contains(x) {
                    assert(r.push(x)[r.len() as int] == x);
                }
            } else if !r.contains(s.last()) {
                if r.push(s.last()).contains(x) {
                    let i = choose|i: int| 0 <= i < r.len() + 1 && r.push(s.last())[i] == x;
                    assert(r[i] == x);
                }
                if r.contains(x) {
                    let i = choose|i: int| 0 <= i < r.len() && r[i] == x;
                    assert(r.push(s.last())[i] == x);
                }
            }
        }
    }
}

pub(crate) proof fn lemma_sources(tasks: Seq<Task>, k: int)
    requires
        0 <= k <= usize::MAX,
    ensures
        forall|q: int| 0 <= q < sources(tasks, k).len() ==> #[trigger] sources(tasks, k)[q] < k,
        forall|a: int, b: int|
            0 <= a < b < sources(tasks, k).len() ==> #[trigger] sources(tasks, k)[a]
                < #[trigger] sources(tasks, k)[b],
        forall|j: int|
            0 <= j < k ==> (sources(tasks, k).contains(j as usize) <==> #[trigger] tasks[j].pred@.len()
                == 0),
    decreases k,
{
    if k > 0 {
        lemma_sources(tasks, k - 1);
        let r = sources(tasks, k - 1);
        assert forall|j: int| 0 <= j < k implies (sources(tasks, k).contains(j as usize) <==> #[trigger] tasks[j].pred@.len()
                == 0) by {
            lemma_push_contains(r, (k - 1) as usize, j as usize);
        }
    }
}

pub(crate) proof fn lemma_sinks(tasks: Seq<Task>, k: int)
    requires
        0 <= k <= usize::MAX,
    ensures
        forall|q: int| 0 <= q < sinks(tasks, k).len() ==> #[trigger] sinks(tasks, k)[q] < k,
        forall|a: int, b: int|
            0 <= a < b < sinks(tasks, k).len() ==> #[trigger] sinks(tasks, k)[a]
                < #[trigger] sinks(tasks, k)[b],
        forall|j: int|
            0 <= j < k ==> (sinks(tasks, k).contains(j as usize) <==> #[trigger] tasks[j].succ@.len()
                == 0),
    decreases k,
{
    if k > 0 {
        lemma_sinks(tasks, k - 1);
        let r = sinks(tasks, k - 1);
        assert forall|j: int| 0 <= j < k implies (sinks(tasks, k).contains(j as usize) <==> #[trigger] tasks[j].succ@.len()
                == 0) by {
            lemma_push_contains(r, (k - 1) as usize, j as usize);
        }
    }
}

/// START appended in front of the sources keeps the registry invariant.
proof fn lemma_started_wf(before: TaskMapView, after: TaskMapView)
    requires
        before.wf(),
        after.tasks.len() <= usize::MAX,
        !before.has_id(START_ID@),
        before.started(after),
        ({
            let t = after.tasks[before.tasks.len() as int];
            &&& t.succ_names@.len() == t.succ@.len()
            &&& forall|k: int|
                #![trigger t.succ@[k]]
                0 <= k < t.succ@.len() ==> t.succ_names@[k]@ == before.tasks[t.succ@[k] as int].id@
        }),
    ensures
        after.wf(),
{
    let n = before.tasks.len();
    let t = after.tasks[n as int];
    lemma_sources(before.tasks, n as int);
    assert(before.start is None);
    assert forall|i: int| 0 <= i < n implies after.rank(i) == before.rank(i) by {}
    assert forall|i: int, j: int|
        0 <= i < after.tasks.len() && 0 <= j < after.tasks.len() && i != j implies after.tasks[i].id@
        != after.tasks[j].id@ by {
        if i < n {
            assert(after.tasks[i].id@ == before.tasks[i].id@);
        }
        if j < n {
            assert(after.tasks[j].id@ == before.tasks[j].id@);
        }
    }
    assert(t.succ@.no_duplicates()) by {
        assert forall|a: int, b: int| 0 <= a < t.succ@.len() && 0 <= b < t.succ@.len() && a != b implies t.succ@[a] != t.succ@[b] by {
            if a < b {
                assert(sources(before.tasks, n as int)[a] < sources(before.tasks, n as int)[b]);
            } else {
                assert(sources(before.tasks, n as int)[b] < sources(before.tasks, n as int)[a]);
            }
        }
    }
    assert forall|i: int| 0 <= i < after.tasks.len() implies after.task_wf(i) by {
        if i < n {
            assert(before.task_wf(i));
            let a = after.tasks[i];
            let b = before.tasks[i];
            if b.pred@.len() == 0 {
                assert(a.gained_pred(b, n as usize, START_ID@));
                assert(a.pred@ =~= seq![n as usize]);
                assert(a.pred_names@[0] == a.pred_names@.last());
                assert forall|k: int| #![trigger a.succ@[k]] 0 <= k < a.succ@.len() implies {
                    &&& a.succ@[k] < after.tasks.len()
                    &&& a.succ_names@[k]@ == after.tasks[a.succ@[k] as int].id@
                    &&& after.rank(i) < after.rank(a.succ@[k] as int)
                } by {
                    assert(b.succ@[k] < n);
                    assert(after.tasks[b.succ@[k] as int].id@ == before.tasks[b.succ@[k] as int].id@);
                }
            } else {
                assert(a == b);
                assert forall|k: int| #![trigger a.succ@[k]] 0 <= k < a.succ@.len() implies {
                    &&& a.succ@[k] < after.tasks.len()
                    &&& a.succ_names@[k]@ == after.tasks[a.succ@[k] as int].id@
                    &&& after.rank(i) < after.rank(a.succ@[k] as int)
                } by {
                    assert(b.succ@[k] < n);
                    assert(after.tasks[b.succ@[k] as int].id@ == before.tasks[b.succ@[k] as int].id@);
                }
                assert forall|k: int| #![trigger a.pred@[k]] 0 <= k < a.pred@.len() implies {
                    &&& a.pred@[k] < after.tasks.len()
                    &&& a.pred_names@[k]@ == after.tasks[a.pred@[k] as int].id@
                    &&& after.rank(a.pred@[k] as int) < after.rank(i)
                } by {
                    assert(b.pred@[k] < n);
                    assert(after.tasks[b.pred@[k] as int].id@ == before.tasks[b.pred@[k] as int].id@);
                }
            }
        } else {
            assert(i == n);
            assert forall|k: int| #![trigger t.succ@[k]] 0 <= k < t.succ@.len() implies {
                &&& t.succ@[k] < after.tasks.len()
                &&& t.succ_names@[k]@ == after.tasks[t.succ@[k] as int].id@
                &&& after.rank(i) < after.rank(t.succ@[k] as int)
            } by {
                assert(sources(before.tasks, n as int)[k] < n);
                assert(after.tasks[t.succ@[k] as int].id@ == before.tasks[t.succ@[k] as int].id@);
            }
        }
    }
    assert forall|i: int, j: int|
        0 <= i < after.tasks.len() && 0 <= j < after.tasks.len() implies (
        after.tasks[i].pred@.contains(j as usize) <==> after.tasks[j].succ@.contains(i as usize))
    by {
        if i < n && j < n {
            assert(before.tasks[i].pred@.contains(j as usize) <==> before.tasks[j].succ@.contains(
                i as usize,
            ));
            if before.tasks[i].pred@.len() == 0 {
                lemma_push_contains(before.tasks[i].pred@, n as usize, j as usize);
            }
        } else if i < n {
            if before.tasks[i].pred@.len() == 0 {
                lemma_push_contains(before.tasks[i].pred@, n as usize, j as usize);
            } else {
                assert(before.task_wf(i));
                if before.tasks[i].pred@.contains(n as usize) {
                    let k = choose|k: int|
                        0 <= k < before.tasks[i].pred@.len() && before.tasks[i].pred@[k] == n;
                    assert(false);
                }
            }
        } else if j < n {
            assert(before.task_wf(j));
            if after.tasks[j].succ@.contains(n as usize) {
                let k = choose|k: int|
                    0 <= k < before.tasks[j].succ@.len() && before.tasks[j].succ@[k] == n;
                assert(false);
            }
        } else {
            if t.succ@.contains(n as usize) {
                let k = choose|k: int| 0 <= k < t.succ@.len() && t.succ@[k] == n;
                assert(t.succ@[k] < n);
            }
        }
    }
    if let Some(e) = after.end {
        assert(before.tasks[e as int].id@ == END_ID@);
        assert(after.tasks[e as int].id@ == END_ID@);
    }
}

/// END appended behind the sinks keeps the registry invariant.
proof fn lemma_ended_wf(before: TaskMapView, after: TaskMapView)
    requires
        before.wf(),
        after.tasks.len() <= usize::MAX,
        !before.has_id(END_ID@),
        before.ended(after),
        ({
            let t = after.tasks[before.tasks.len() as int];
            &&& t.pred_names@.len() == t.pred@.len()
            &&& forall|k: int|
                #![trigger t.pred@[k]]
                0 <= k < t.pred@.len() ==> t.pred_names@[k]@ == before.tasks[t.pred@[k] as int].id@
        }),
    ensures
        after.wf(),
{
    let n = before.tasks.len();
    let t = after.tasks[n as int];
    lemma_sinks(before.tasks, n as int);
    assert(before.end is None);
    assert(!after.is_start(n as int));
    assert forall|i: int| 0 <= i < n implies after.rank(i) == before.rank(i) by {}
    assert forall|i: int, j: int|
        0 <= i < after.tasks.len() && 0 <= j < after.tasks.len() && i != j implies after.tasks[i].id@
        != after.tasks[j].id@ by {
        if i < n {
            assert(after.tasks[i].id@ == before.tasks[i].id@);
        }
        if j < n {
            assert(after.tasks[j].id@ == before.tasks[j].id@);
        }
    }
    assert(t.pred@.no_duplicates()) by {
        assert forall|a: int, b: int| 0 <= a < t.pred@.len() && 0 <= b < t.pred@.len() && a != b implies t.pred@[a] != t.pred@[b] by {
            if a < b {
                assert(sinks(before.tasks, n as int)[a] < sinks(before.tasks, n as int)[b]);
            } else {
                assert(sinks(before.tasks, n as int)[b] < sinks(before.tasks, n as int)[a]);
            }
        }
    }
    assert forall|i: int| 0 <= i < after.tasks.len() implies after.task_wf(i) by {
        if i < n {
            assert(before.task_wf(i));
            let a = after.tasks[i];
            let b = before.tasks[i];
            if b.succ@.len() == 0 {
                assert(a.gained_succ(b, n as usize, END_ID@));
                assert(a.succ@ =~= seq![n as usize]);
                assert(a.succ_names@[0] == a.succ_names@.last());
                assert forall|k: int| #![trigger a.pred@[k]] 0 <= k < a.pred@.len() implies {
                    &&& a.pred@[k] < after.tasks.len()
                    &&& a.pred_names@[k]@ == after.tasks[a.pred@[k] as int].id@
                    &&& after.rank(a.pred@[k] as int) < after.rank(i)
                } by {
                    assert(b.pred@[k] < n);
                    assert(after.tasks[b.pred@[k] as int].id@ == before.tasks[b.pred@[k] as int].id@);
                }
            } else {
                assert(a == b);
                assert forall|k: int| #![trigger a.succ@[k]] 0 <= k < a.succ@.len() implies {
                    &&& a.succ@[k] < after.tasks.len()
                    &&& a.succ_names@[k]@ == after.tasks[a.succ@[k] as int].id@
                    &&& after.rank(i) < after.rank(a.succ@[k] as int)
                } by {
                    assert(b.succ@[k] < n);
                    assert(after.tasks[b.succ@[k] as int].id@ == before.tasks[b.succ@[k] as int].id@);
                }
                assert forall|k: int| #![trigger a.pred@[k]] 0 <= k < a.pred@.len() implies {
                    &&& a.pred@[k] < after.tasks.len()
                    &&& a.pred_names@[k]@ == after.tasks[a.pred@[k] as int].id@
                    &&& after.rank(a.pred@[k] as int) < after.rank(i)
                } by {
                    assert(b.pred@[k] < n);
                    assert(after.tasks[b.pred@[k] as int].id@ == before.tasks[b.pred@[k] as int].id@);
                }
            }
        } else {
            assert(i == n);
            assert forall|k: int| #![trigger t.pred@[k]] 0 <= k < t.pred@.len() implies {
                &&& t.pred@[k] < after.tasks.len()
                &&& t.pred_names@[k]@ == after.tasks[t.pred@[k] as int].id@
                &&& after.rank(t.pred@[k] as int) < after.rank(i)
            } by {
                assert(sinks(before.tasks, n as int)[k] < n);
                assert(after.tasks[t.pred@[k] as int].id@ == before.tasks[t.pred@[k] as int].id@);
            }
        }
    }
    assert forall|i: int, j: int|
        0 <= i < after.tasks.len() && 0 <= j < after.tasks.len() implies (
        after.tasks[i].pred@.contains(j as usize) <==> after.tasks[j].succ@.contains(i as usize))
    by {
        if i < n && j < n {
            assert(before.tasks[i].pred@.contains(j as usize) <==> before.tasks[j].succ@.contains(
                i as usize,
            ));
            if before.tasks[j].succ@.len() == 0 {
                lemma_push_contains(before.tasks[j].succ@, n as usize, i as usize);
            }
        } else if j < n {
            if before.tasks[j].succ@.len() == 0 {
                lemma_push_contains(before.tasks[j].succ@, n as usize, i as usize);
            } else {
                assert(before.task_wf(j));
                if before.tasks[j].succ@.contains(n as usize) {
                    let k = choose|k: int|
                        0 <= k < before.tasks[j].succ@.len() && before.tasks[j].succ@[k] == n;
                    assert(false);
                }
            }
        } else if i < n {
            assert(before.task_wf(i));
            if after.tasks[i].pred@.contains(n as usize) {
                let k = choose|k: int|
                    0 <= k < before.tasks[i].pred@.len() && before.tasks[i].pred@[k] == n;
                assert(false);
            }
        } else {
            if t.pred@.contains(n as usize) {
                let k = choose|k: int| 0 <= k < t.pred@.len() && t.pred@[k] == n;
                assert(t.pred@[k] < n);
            }
        }
    }
    if let Some(s) = after.start {
        assert(before.tasks[s as int].id@ == START_ID@);
        assert(after.tasks[s as int].id@ == START_ID@);
        assert(after.tasks[s as int].pred@ == before.tasks[s as int].pred@);
    }
}

/// A task inserted after its registered, distinct dependencies keeps the
/// registry invariant.
proof fn lemma_inserted_wf(
    before: TaskMapView,
    after: TaskMapView,
    id: Seq<char>,
    duration: u32,
    deps: Seq<Seq<char>>,
)
    requires
        before.wf(),
        after.tasks.len() <= usize::MAX,
        !before.has_id(id),
        before.inserted(after, id, duration, deps),
        ({
            let n = before.tasks.len();
            let t = after.tasks[n as int];
            &&& t.pred@.len() == t.pred_names@.len()
            &&& t.succ_names@.len() == 0
            &&& t.pred@.no_duplicates()
            &&& forall|m: int|
                #![trigger t.pred@[m]]
                0 <= m < t.pred@.len() ==> t.pred@[m] < n && t.pred_names@[m]@ == before.tasks[t.pred@[m] as int].id@
            &&& forall|j: int|
                0 <= j < n ==> t.pred@.contains(j as usize) == deps.contains(
                    #[trigger] before.tasks[j].id@,
                )
        }),
    ensures
        after.wf(),
{
    let n = before.tasks.len();
    let t = after.tasks[n as int];
    assert(!after.is_start(n as int));
    assert forall|i: int| 0 <= i < n implies after.rank(i) == before.rank(i) by {}
    assert forall|i: int, j: int|
        0 <= i < after.tasks.len() && 0 <= j < after.tasks.len() && i != j implies after.tasks[i].id@
        != after.tasks[j].id@ by {
        if i < n && j < n {
            assert(after.tasks[i].id@ == before.tasks[i].id@);
            assert(after.tasks[j].id@ == before.tasks[j].id@);
        } else if i < n {
            assert(after.tasks[i].id@ == before.tasks[i].id@);
        } else {
            assert(after.tasks[j].id@ == before.tasks[j].id@);
        }
    }
    assert forall|i: int| 0 <= i < after.tasks.len() implies after.task_wf(i) by {
        if i < n {
            assert(before.task_wf(i));
            let a = after.tasks[i];
            let b = before.tasks[i];
            if deps.contains(b.id@) {
                assert(a.gained_succ(b, n as usize, id));
                assert(t.pred@.contains(i as usize));
                if b.succ@.contains(n as usize) {
                    let k = choose|k: int| 0 <= k < b.succ@.len() && b.succ@[k] == n;
                    assert(b.succ@[k] < n);
                }
                assert forall|k: int| #![trigger a.succ@[k]] 0 <= k < a.succ@.len() implies {
                    &&& a.succ@[k] < after.tasks.len()
                    &&& a.succ_names@[k]@ == after.tasks[a.succ@[k] as int].id@
                    &&& after.rank(i) < after.rank(a.succ@[k] as int)
                } by {
                    if k < b.succ@.len() {
                        assert(a.succ@[k] == b.succ@[k]);
                        assert(a.succ_names@[k] == a.succ_names@.drop_last()[k]);
                        assert(after.tasks[b.succ@[k] as int].id@ == before.tasks[b.succ@[k] as int].id@);
                    } else {
                        assert(a.succ@[k] == n);
                        assert(a.succ_names@[k]@ == id);
                    }
                }
            } else {
                assert(a == b);
            }
        } else {
            assert(i == n);
        }
    }
    assert forall|i: int, j: int|
        0 <= i < after.tasks.len() && 0 <= j < after.tasks.len() implies (
        after.tasks[i].pred@.contains(j as usize) <==> after.tasks[j].succ@.contains(i as usize))
    by {
        if i < n && j < n {
            assert(before.tasks[i].pred@.contains(j as usize) <==> before.tasks[j].succ@.contains(
                i as usize,
            ));
            if deps.contains(before.tasks[j].id@) {
                assert(after.tasks[j].succ@ == before.tasks[j].succ@.push(n as usize));
                lemma_push_contains(before.tasks[j].succ@, n as usize, i as usize);
            }
            if deps.contains(before.tasks[i].id@) {
                assert(after.tasks[i].pred@ == before.tasks[i].pred@);
            }
        } else if i < n {
            assert(before.task_wf(i));
            if deps.contains(before.tasks[i].id@) {
                assert(after.tasks[i].pred@ == before.tasks[i].pred@);
            }
            if after.tasks[i].pred@.contains(j as usize) {
                let k = choose|k: int|
                    0 <= k < after.tasks[i].pred@.len() && after.tasks[i].pred@[k] == j;
                assert(before.tasks[i].pred@[k] < n);
            }
        } else if j < n {
            if deps.contains(before.tasks[j].id@) {
                assert(after.tasks[j].succ@ == before.tasks[j].succ@.push(n as usize));
                assert(after.tasks[j].succ@.last() == n);
            } else {
                assert(before.task_wf(j));
                if before.tasks[j].succ@.contains(n as usize) {
                    let k = choose|k: int|
                        0 <= k < before.tasks[j].succ@.len() && before.tasks[j].succ@[k] == n;
                    assert(false);
                }
            }
        } else {
            if t.pred@.contains(n as usize) {
                let k = choose|k: int| 0 <= k < t.pred@.len() && t.pred@[k] == n;
                assert(false);
            }
        }
    }
    if let Some(s) = after.start {
        assert(after.tasks[s as int] == before.tasks[s as int] || after.tasks[s as int].gained_succ(
            before.tasks[s as int],
            n as usize,
            id,
        ));
    }
    if let Some(e) = after.end {
        assert(after.tasks[e as int] == before.tasks[e as int] || after.tasks[e as int].gained_succ(
            before.tasks[e as int],
            n as usize,
            id,
        ));
    }
}

} // verus!
