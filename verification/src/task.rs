//! One task of the tree: its name, its amounts, how many children it has
//! and whether it is done.

use vstd::prelude::*;
use vstd::string::*;
use crate::task_id::{children_of, TaskId};

verus! {

/// Whether a task is finished. A fresh task is in progress.
#[derive(Debug, Clone, Copy, PartialEq, Eq, Structural)]
pub enum TaskStatus {
    InProgress,
    Done,
}

impl TaskStatus {
    /// A mark for the status: a cross while in progress, a tick when done.
    pub fn to_icon(&self) -> (r: &'static str)
        ensures
            r@ == (match *self {
                TaskStatus::InProgress => "\u{2717}"@,
                TaskStatus::Done => "\u{2714}"@,
            }),
    {
        match self {
            TaskStatus::InProgress => "\u{2717}",
            TaskStatus::Done => "\u{2714}",
        }
    }

    /// The name of the status.
    pub fn to_string(&self) -> (r: String)
        ensures
            r@ == (match *self {
                TaskStatus::InProgress => "InProgress"@,
                TaskStatus::Done => "Done"@,
            }),
    {
        match self {
            TaskStatus::InProgress => "InProgress".to_owned(),
            TaskStatus::Done => "Done".to_owned(),
        }
    }
}

/// What a task is, as a mathematical value. Amounts are whole numbers of
/// the smallest unit that the project counts in.
pub struct TaskView {
    pub id: Seq<u32>,
    pub name: Seq<char>,
    pub planned_value: u64,
    pub actual_cost: u64,
    pub num_children: u32,
    pub status: TaskStatus,
    /// The names of the members that work on the task, oldest first.
    pub members: Seq<Seq<char>>,
}

/// A task that was just created under the id `id`: a leaf in progress with
/// nothing planned and nothing spent.
pub open spec fn fresh_task(id: Seq<u32>, name: Seq<char>) -> TaskView {
    TaskView {
        id,
        name,
        planned_value: 0,
        actual_cost: 0,
        num_children: 0,
        status: TaskStatus::InProgress,
        members: Seq::empty(),
    }
}

/// The names in `names` with `name` among them: added at the end unless it
/// is there already.
pub open spec fn with_member(names: Seq<Seq<char>>, name: Seq<char>) -> Seq<Seq<char>> {
    if names.contains(name) {
        names
    } else {
        names.push(name)
    }
}

/// The names in `names` other than `name`, in their order.
pub open spec fn without_member(names: Seq<Seq<char>>, name: Seq<char>) -> Seq<Seq<char>>
    decreases names.len(),
{
    if names.len() == 0 {
        names
    } else if names.last() == name {
        without_member(names.drop_last(), name)
    } else {
        without_member(names.drop_last(), name).push(names.last())
    }
}

/// A node of the work breakdown structure.
#[derive(Debug)]
pub struct Task {
    pub(crate) name: String,
    pub(crate) id: TaskId,
    pub(crate) planned_value: u64,
    pub(crate) actual_cost: u64,
    pub(crate) num_child: u32,
    pub(crate) status: TaskStatus,
    pub(crate) members_names: Vec<String>,
}

impl View for Task {
    type V = TaskView;

    open(crate) spec fn view(&self) -> TaskView {
        TaskView {
            id: self.id@,
            name: self.name@,
            planned_value: self.planned_value,
            actual_cost: self.actual_cost,
            num_children: self.num_child,
            status: self.status,
            members: self.members_names@.map_values(|s: String| s@),
        }
    }
}

impl Clone for Task {
    fn clone(&self) -> (r: Self)
        ensures
            r@ == self@,
    {
        let mut members_names: Vec<String> = Vec::new();
        let mut i: usize = 0;
        while i < self.members_names.len()
            invariant
                i <= self.members_names.len(),
                members_names@.len() == i,
                forall|j: int| 0 <= j < i ==> members_names@[j]@ == self.members_names@[j]@,
            decreases self.members_names.len() - i,
        {
            members_names.push(self.members_names[i].clone());
            i = i + 1;
        }
        assert(members_names@.map_values(|s: String| s@) =~= self.members_names@.map_values(
            |s: String| s@,
        ));
        Task {
            name: self.name.clone(),
            id: self.id.clone(),
            planned_value: self.planned_value,
            actual_cost: self.actual_cost,
            num_child: self.num_child,
            status: self.status,
            members_names,
        }
    }
}

/// Two tasks are the same task when they have the same id and name; the
/// amounts and the status are what the task currently holds, not what it is.
impl PartialEq for Task {
    fn eq(&self, other: &Self) -> (r: bool) {
        self.id == other.id && self.name == other.name
    }
}

impl Eq for Task {

}

impl vstd::std_specs::cmp::PartialEqSpecImpl for Task {
    open spec fn obeys_eq_spec() -> bool {
        true
    }

    open spec fn eq_spec(&self, other: &Self) -> bool {
        self@.id == other@.id && self@.name == other@.name
    }
}

impl Task {
    /// A fresh leaf task.
    pub fn new(id: TaskId, name: &str) -> (r: Self)
        ensures
            r@ == fresh_task(id@, name@),
    {
        let r = Self {
            id,
            name: name.to_owned(),
            planned_value: 0,
            actual_cost: 0,
            num_child: 0,
            status: TaskStatus::InProgress,
            members_names: Vec::new(),
        };
        assert(r@.members =~= Seq::<Seq<char>>::empty());
        r
    }

    /// A task put together from what it holds.
    pub fn from_parts(
        id: TaskId,
        name: &str,
        planned_value: u64,
        actual_cost: u64,
        num_child: u32,
        status: TaskStatus,
        members_names: Vec<String>,
    ) -> (r: Self)
        ensures
            r@ == (TaskView {
                id: id@,
                name: name@,
                planned_value,
                actual_cost,
                num_children: num_child,
                status,
                members: members_names@.map_values(|s: String| s@),
            }),
    {
        Self { id, name: name.to_owned(), planned_value, actual_cost, num_child, status, members_names }
    }

    /// Gives the task another id.
    pub fn set_id(&mut self, id: TaskId)
        ensures
            final(self)@ == (TaskView { id: id@, ..old(self)@ }),
    {
        self.id = id;
    }

    /// The names of the members that work on the task, oldest first.
    pub fn members_names(&self) -> (r: &Vec<String>)
        ensures
            r@.map_values(|s: String| s@) == self@.members,
    {
        &self.members_names
    }

    /// The id under which the task is stored.
    pub fn id(&self) -> (r: &TaskId)
        ensures
            r@ == self@.id,
    {
        &self.id
    }

    /// The task's name.
    pub fn name(&self) -> (r: &str)
        ensures
            r@ == self@.name,
    {
        self.name.as_str()
    }

    /// The planned value: the task's own if it is a leaf, else the sum over
    /// its children.
    pub fn get_planned_value(&self) -> (r: u64)
        ensures
            r == self@.planned_value,
    {
        self.planned_value
    }

    /// The actual cost: the task's own if it is a leaf, else the sum over
    /// its children.
    pub fn get_actual_cost(&self) -> (r: u64)
        ensures
            r == self@.actual_cost,
    {
        self.actual_cost
    }

    /// How many children the task has.
    pub fn num_children(&self) -> (r: u32)
        ensures
            r == self@.num_children,
    {
        self.num_child
    }

    /// Whether the task is done.
    pub fn status(&self) -> (r: TaskStatus)
        ensures
            r == self@.status,
    {
        self.status
    }

    /// The ids of the task's children, in order.
    pub fn child_ids(&self) -> (r: Vec<TaskId>)
        ensures
            r@.map_values(|t: TaskId| t@) == children_of(self@.id, self@.num_children as nat),
    {
        self.id.child_ids(self.num_child)
    }

    /// Whether the member named `name` works on the task.
    pub fn has_member(&self, name: &str) -> (r: bool)
        ensures
            r == self@.members.contains(name@),
    {
        let wanted = name.to_owned();
        let mut i: usize = 0;
        while i < self.members_names.len()
            invariant
                i <= self.members_names.len(),
                wanted@ == name@,
                forall|j: int| 0 <= j < i ==> self@.members[j] != name@,
            decreases self.members_names.len() - i,
        {
            if self.members_names[i] == wanted {
                assert(self@.members[i as int] == name@);
                return true;
            }
            i = i + 1;
        }
        false
    }

    /// Puts the member named `name` on the task, unless they are on it
    /// already.
    pub fn add_member(&mut self, name: &str)
        ensures
            final(self)@ == (TaskView {
                members: with_member(old(self)@.members, name@),
                ..old(self)@
            }),
    {
        if !self.has_member(name) {
            self.members_names.push(name.to_owned());
            assert(self@.members =~= old(self)@.members.push(name@));
        }
    }

    /// Takes the member named `name` off the task.
    pub fn remove_member(&mut self, name: &str)
        ensures
            final(self)@ == (TaskView {
                members: without_member(old(self)@.members, name@),
                ..old(self)@
            }),
    {
        let wanted = name.to_owned();
        let mut kept: Vec<String> = Vec::new();
        let ghost names = self@.members;
        let mut i: usize = 0;
        while i < self.members_names.len()
            invariant
                i <= self.members_names.len(),
                wanted@ == name@,
                names == self@.members,
                kept@.map_values(|s: String| s@) == without_member(names.take(i as int), name@),
            decreases self.members_names.len() - i,
        {
            proof {
                assert(names.take(i + 1).drop_last() =~= names.take(i as int));
            }
            if !(self.members_names[i] == wanted) {
                kept.push(self.members_names[i].clone());
            }
            i = i + 1;
        }
        assert(names.take(i as int) =~= names);
        self.members_names = kept;
    }

    /// Whether the task has children.
    pub fn is_trunk(&self) -> (r: bool)
        ensures
            r == (self@.num_children > 0),
    {
        self.num_child > 0
    }

    /// Whether the task has no children.
    pub fn is_leaf(&self) -> (r: bool)
        ensures
            r == (self@.num_children == 0),
    {
        self.num_child == 0
    }
}

} // verus!
