//! The per-user task list as the clients exchange it.
//!
//! A task carries a client-assigned integer id and a summary line; a
//! user's state is the whole ordered list plus a `next_id` counter that
//! only the clients interpret.  The server replaces the list wholesale.
use vstd::prelude::*;

verus! {

/// Mathematical model of one task.
#[verifier::ext_equal]
pub struct TaskModel {
    pub id: int,
    pub summary: Seq<char>,
}

impl TaskModel {
    /// The id fits the wire integer width.
    pub open spec fn in_range(self) -> bool {
        i32::MIN <= self.id <= i32::MAX
    }
}

/// One task: a client-assigned id and a summary line.
#[derive(Debug, Clone, PartialEq, Eq)]
pub struct Task {
    pub id: i32,
    pub summary: String,
}

impl View for Task {
    type V = TaskModel;

    open spec fn view(&self) -> TaskModel {
        TaskModel { id: self.id as int, summary: self.summary@ }
    }
}

impl Task {
    /// A deep copy with the same id and summary.
    pub fn duplicate(&self) -> (r: Task)
        ensures
            r@ == self@,
    {
        Task { id: self.id, summary: self.summary.clone() }
    }
}

/// Mathematical model of one user's task state.
#[verifier::ext_equal]
pub struct TasksModel {
    pub tasks: Seq<TaskModel>,
    pub next_id: int,
}

impl TasksModel {
    /// The state of a user that never sent an update.
    pub open spec fn empty() -> TasksModel {
        TasksModel { tasks: Seq::empty(), next_id: 0 }
    }

    /// Every id and the counter fit the wire integer width.
    pub open spec fn in_range(self) -> bool {
        &&& (forall|k: int| 0 <= k < self.tasks.len() ==> (#[trigger] self.tasks[k]).in_range())
        &&& i32::MIN <= self.next_id <= i32::MAX
    }
}

/// The model of any concrete value fits the wire integer width.
pub proof fn lemma_tasks_in_range(t: &Tasks)
    ensures
        t@.in_range(),
{
    assert forall|k: int| 0 <= k < t@.tasks.len() implies (#[trigger] t@.tasks[k]).in_range() by {
        assert(t@.tasks[k] == t.tasks@[k]@);
    }
}

/// One user's whole task list plus the client-maintained `next_id`
/// counter, which the server echoes without interpreting it.
#[derive(Debug, Clone, PartialEq, Eq)]
pub struct Tasks {
    pub tasks: Vec<Task>,
    pub next_id: i32,
}

impl View for Tasks {
    type V = TasksModel;

    open spec fn view(&self) -> TasksModel {
        TasksModel { tasks: self.tasks@.map_values(|t: Task| t@), next_id: self.next_id as int }
    }
}

impl Default for Tasks {
    /// The empty list with a zero counter.
    fn default() -> (r: Tasks)
        ensures
            r@ == TasksModel::empty(),
    {
        let r = Tasks { tasks: Vec::new(), next_id: 0 };
        proof {
            assert(r@.tasks =~= Seq::<TaskModel>::empty());
            assert(r@ =~= TasksModel::empty());
        }
        r
    }
}

impl Tasks {
    /// A deep copy denoting the same state.
    pub fn duplicate(&self) -> (r: Tasks)
        ensures
            r@ == self@,
    {
        let n = self.tasks.len();
        let mut out: Vec<Task> = Vec::new();
        let mut i: usize = 0;
        while i < n
            invariant
                n == self.tasks@.len(),
                i <= n,
                out@.len() == i,
                forall|j: int| 0 <= j < i ==> out@[j]@ == self.tasks@[j]@,
            decreases n - i,
        {
            out.push(self.tasks[i].duplicate());
            i += 1;
        }
        let r = Tasks { tasks: out, next_id: self.next_id };
        proof {
            assert(r@.tasks =~= self@.tasks);
            assert(r@ =~= self@);
        }
        r
    }
}

} // verus!
