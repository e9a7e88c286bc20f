use std::rc::Rc;
use vstd::prelude::*;

verus! {

/// One node of the schedule.
///
/// Edges are kept as arena indices (`pred`, `succ`) for the passes, and as
/// identifiers (`pred_names`, `succ_names`, position by position) for
/// reporting.  A `TaskMap` keeps both in step.
pub struct Task {
    pub id: String,
    pub duration: u32,
    pub early_start: u32,
    pub early_finish: u32,
    pub late_start: u32,
    pub late_finish: u32,
    pub pred: Vec<usize>,
    pub succ: Vec<usize>,
    pub pred_names: Vec<String>,
    pub succ_names: Vec<String>,
}

impl Task {
    /// A task as it is before any pass: earliest times 0, latest times
    /// unset (`u32::MAX`), and no edges.
    pub open spec fn is_fresh(self, id: Seq<char>, duration: u32) -> bool {
        &&& self.id@ == id
        &&& self.duration == duration
        &&& self.early_start == 0
        &&& self.early_finish == 0
        &&& self.late_start == u32::MAX
        &&& self.late_finish == u32::MAX
        &&& self.pred@.len() == 0
        &&& self.succ@.len() == 0
        &&& self.pred_names@.len() == 0
        &&& self.succ_names@.len() == 0
    }

    /// Same identifier, duration and edges.
    pub open spec fn same_shape(self, other: Task) -> bool {
        &&& self.id@ == other.id@
        &&& self.duration == other.duration
        &&& self.pred@ == other.pred@
        &&& self.succ@ == other.succ@
        &&& self.pred_names@ == other.pred_names@
        &&& self.succ_names@ == other.succ_names@
    }

    /// Same earliest and latest times.
    pub open spec fn same_times(self, other: Task) -> bool {
        &&& self.early_start == other.early_start
        &&& self.early_finish == other.early_finish
        &&& self.late_start == other.late_start
        &&& self.late_finish == other.late_finish
    }

    /// `self` is `before` with one more successor edge, to `index` named `name`.
    pub open spec fn gained_succ(self, before: Task, index: usize, name: Seq<char>) -> bool {
        &&& self.id@ == before.id@
        &&& self.duration == before.duration
        &&& self.same_times(before)
        &&& self.pred@ == before.pred@
        &&& self.pred_names@ == before.pred_names@
        &&& self.succ@ == before.succ@.push(index)
        &&& self.succ_names@.len() == before.succ_names@.len() + 1
        &&& self.succ_names@.drop_last() == before.succ_names@
        &&& self.succ_names@.last()@ == name
    }

    /// `self` is `before` with one more predecessor edge, from `index` named `name`.
    pub open spec fn gained_pred(self, before: Task, index: usize, name: Seq<char>) -> bool {
        &&& self.id@ == before.id@
        &&& self.duration == before.duration
        &&& self.same_times(before)
        &&& self.succ@ == before.succ@
        &&& self.succ_names@ == before.succ_names@
        &&& self.pred@ == before.pred@.push(index)
        &&& self.pred_names@.len() == before.pred_names@.len() + 1
        &&& self.pred_names@.drop_last() == before.pred_names@
        &&& self.pred_names@.last()@ == name
    }

    /// Zero total float: both the start and the finish are pinned.
    pub open spec fn spec_is_critical(self) -> bool {
        self.early_start == self.late_start && self.early_finish == self.late_finish
    }

    pub fn new(id: String, duration: u32) -> (t: Task)
        ensures
            t.is_fresh(id@, duration),
    {
        Task {
            id,
            duration,
            early_start: 0,
            early_finish: 0,
            late_start: u32::MAX,
            late_finish: u32::MAX,
            pred: Vec::new(),
            succ: Vec::new(),
            pred_names: Vec::new(),
            succ_names: Vec::new(),
        }
    }

    /// A fresh task behind a shared handle.
    pub fn rc_new(id: String, duration: u32) -> (t: Rc<Task>)
        ensures
            (*t).is_fresh(id@, duration),
    {
        Rc::new(Task::new(id, duration))
    }

    pub fn is_critical(&self) -> (r: bool)
        ensures
            r == self.spec_is_critical(),
    {
        self.early_start == self.late_start && self.early_finish == self.late_finish
    }

    /// Identifiers of the successors, in the order the edges were made.
    pub fn succ_ids(&self) -> (r: Vec<String>)
        ensures
            r@ == self.succ_names@,
    {
        copy_names(&self.succ_names)
    }

    /// Identifiers of the predecessors, in the order the edges were made.
    pub fn pred_ids(&self) -> (r: Vec<String>)
        ensures
            r@ == self.pred_names@,
    {
        copy_names(&self.pred_names)
    }
}

/// Tasks are told apart by their identifiers.
impl PartialEq for Task {
    fn eq(&self, other: &Task) -> bool {
        self.id == other.id
    }
}

impl vstd::std_specs::cmp::PartialEqSpecImpl for Task {
    open spec fn obeys_eq_spec() -> bool {
        true
    }

    open spec fn eq_spec(&self, other: &Task) -> bool {
        self.id@ == other.id@
    }
}

impl Eq for Task {}

fn copy_names(names: &Vec<String>) -> (r: Vec<String>)
    ensures
        r@ == names@,
{
    let mut r: Vec<String> = Vec::new();
    let mut k: usize = 0;
    while k < names.len()
        invariant
            k <= names.len(),
            r@ == names@.take(k as int),
        decreases names.len() - k,
    {
        r.push(names[k].clone());
        k = k + 1;
        assert(r@ =~= names@.take(k as int));
    }
    assert(names@.take(k as int) =~= names@);
    r
}

} // verus!
