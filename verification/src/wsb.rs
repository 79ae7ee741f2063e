//! A project addressed by the dotted notation of its task ids. Every call
//! reads the ids it is given from text. A call that cannot be carried out
//! returns `None` and changes nothing; adding a list of tasks stops at the
//! first that cannot be added.

use vstd::prelude::*;
use crate::calls::{accepted, after_call, all_added, can_add, expanded, pairs, Call};
use crate::growth::next_child;
use crate::metrics::{cpi_of, cv_of, earned_value_of, completion_of, spi_of, sv_of, Ratio};
use crate::removal::cleared;
use crate::render::{dot_text, tree_text};
use crate::task::{fresh_task, Task, TaskStatus, TaskView};
use crate::task_id::{parse_spec, TaskId};
use crate::tasks::{is_listing, leaf_count, Tasks};
use crate::tree::{rolled_up, well_formed, Tree};

verus! {

/// A work breakdown structure.
#[derive(Debug)]
pub struct WSB {
    tree: Tasks,
}

impl View for WSB {
    type V = Tree;

    closed spec fn view(&self) -> Tree {
        self.tree@
    }
}

impl Clone for WSB {
    fn clone(&self) -> (r: Self)
        ensures
            r@ == self@,
            r.wf() == self.wf(),
    {
        WSB { tree: self.tree.clone() }
    }
}

impl WSB {
    /// The structure is sound.
    pub closed spec fn wf(&self) -> bool {
        self.tree.wf()
    }

    /// A sound structure is a sound tree.
    pub proof fn lemma_wf(&self)
        requires
            self.wf(),
        ensures
            well_formed(self@),
    {
    }

    /// A structure that holds nothing but its root, which carries the
    /// project's name.
    pub fn new(name: &str) -> (r: Self)
        ensures
            r.wf(),
            rolled_up(r@),
            r@ == Map::<Seq<u32>, TaskView>::empty().insert(
                Seq::<u32>::empty(),
                fresh_task(Seq::<u32>::empty(), name@),
            ),
    {
        Self { tree: Tasks::new(name) }
    }

    /// The planned value of the whole project.
    pub fn planned_value(&self) -> (r: u64)
        requires
            self.wf(),
        ensures
            r == self@[Seq::<u32>::empty()].planned_value,
    {
        self.tree.planned_value()
    }

    /// The actual cost of the whole project.
    pub fn actual_cost(&self) -> (r: u64)
        requires
            self.wf(),
        ensures
            r == self@[Seq::<u32>::empty()].actual_cost,
    {
        self.tree.actual_cost()
    }

    /// The share of the leaves that are done.
    pub fn completion_percentage(&self) -> (r: Ratio)
        requires
            self.wf(),
        ensures
            r == completion_of(self@),
            !r.negative,
            r.numerator == leaf_count(self@, Some(TaskStatus::Done)),
            r.denominator == leaf_count(self@, None),
            r.numerator <= r.denominator,
            r.denominator >= 1,
    {
        self.tree.completion_percentage()
    }

    /// The earned value.
    pub fn earned_value(&self) -> (r: Ratio)
        requires
            self.wf(),
        ensures
            r == earned_value_of(self@),
            !r.negative,
            r.numerator == self@[Seq::<u32>::empty()].planned_value * leaf_count(
                self@,
                Some(TaskStatus::Done),
            ),
            r.denominator == leaf_count(self@, None),
    {
        self.tree.earned_value()
    }

    /// The schedule performance index.
    pub fn spi(&self) -> (r: Ratio)
        requires
            self.wf(),
        ensures
            r == spi_of(self@),
    {
        self.tree.spi()
    }

    /// The schedule variance.
    pub fn sv(&self) -> (r: Ratio)
        requires
            self.wf(),
        ensures
            r == sv_of(self@),
    {
        self.tree.sv()
    }

    /// The cost performance index.
    pub fn cpi(&self) -> (r: Ratio)
        requires
            self.wf(),
        ensures
            r == cpi_of(self@),
    {
        self.tree.cpi()
    }

    /// The cost variance.
    pub fn cv(&self) -> (r: Ratio)
        requires
            self.wf(),
        ensures
            r == cv_of(self@),
    {
        self.tree.cv()
    }

    /// The task that the text `id` denotes.
    pub fn get_task(&self, id: &str) -> (r: Option<&Task>)
        requires
            self.wf(),
        ensures
            match r {
                Some(t) => parse_spec(id@) is Some && self@.contains_key(
                    parse_spec(id@).unwrap(),
                ) && t@ == self@[parse_spec(id@).unwrap()],
                None => parse_spec(id@) is None || !self@.contains_key(parse_spec(id@).unwrap()),
            },
    {
        let task_id = match TaskId::parse(id) {
            Ok(t) => t,
            Err(_) => {
                return None;
            },
        };
        match self.tree.get(&task_id) {
            Ok(t) => Some(t),
            Err(_) => None,
        }
    }

    /// Adds a leaf named `name` as the last child of the task that the
    /// text `parent_id` denotes, and returns the new task.
    pub fn add_task(&mut self, parent_id: &str, name: &str) -> (r: Option<Task>)
        requires
            old(self).wf(),
        ensures
            final(self).wf(),
            match r {
                Some(t) => {
                    &&& parse_spec(parent_id@) is Some
                    &&& accepted(
                        old(self)@,
                        (Call::Add { parent: parse_spec(parent_id@).unwrap(), name: name@ }),
                    )
                    &&& final(self)@ == after_call(
                        old(self)@,
                        (Call::Add { parent: parse_spec(parent_id@).unwrap(), name: name@ }),
                    )
                    &&& t@ == fresh_task(
                        next_child(old(self)@, parse_spec(parent_id@).unwrap()),
                        name@,
                    )
                },
                None => {
                    &&& final(self)@ == old(self)@
                    &&& parse_spec(parent_id@) is None || !accepted(
                        old(self)@,
                        (Call::Add { parent: parse_spec(parent_id@).unwrap(), name: name@ }),
                    )
                },
            },
    {
        let parent_task_id = match TaskId::parse(parent_id) {
            Ok(t) => t,
            Err(_) => {
                return None;
            },
        };
        match self.tree.add_task(parent_task_id, name) {
            Ok(t) => Some(t),
            Err(_) => None,
        }
    }

    /// Adds the given tasks in order, each as a pair of the parent's id in
    /// dotted notation and the new task's name. Stops at the first pair
    /// that cannot be added; the tasks before it stay added.
    pub fn expand(&mut self, arr: &[(&str, &str)]) -> (r: Option<()>)
        requires
            old(self).wf(),
        ensures
            final(self).wf(),
            match r {
                Some(()) => {
                    &&& all_added(old(self)@, pairs(arr@), arr@.len())
                    &&& final(self)@ == expanded(old(self)@, pairs(arr@), arr@.len())
                },
                None => exists|n: nat|
                    {
                        &&& n < arr@.len()
                        &&& #[trigger] all_added(old(self)@, pairs(arr@), n)
                        &&& final(self)@ == expanded(old(self)@, pairs(arr@), n)
                        &&& !can_add(final(self)@, pairs(arr@)[n as int])
                    },
            },
    {
        let ghost before = self.tree@;
        match self.tree.expand(arr) {
            Ok(()) => Some(()),
            Err(e) => {
                proof {
                    assert(before == old(self)@);
                }
                None
            },
        }
    }

    /// Takes the leaf that the text `id` denotes out of the tree and
    /// returns it, after its amounts were set to nothing; the siblings
    /// behind it move up by one index.
    pub fn remove(&mut self, id: &str) -> (r: Option<Task>)
        requires
            old(self).wf(),
        ensures
            final(self).wf(),
            rolled_up(old(self)@) ==> rolled_up(final(self)@),
            match r {
                Some(t) => {
                    &&& parse_spec(id@) is Some
                    &&& accepted(old(self)@, (Call::Remove { id: parse_spec(id@).unwrap(), staffed: false }))
                    &&& final(self)@ == after_call(
                        old(self)@,
                        (Call::Remove { id: parse_spec(id@).unwrap(), staffed: false }),
                    )
                    &&& t@ == cleared(old(self)@, parse_spec(id@).unwrap())[parse_spec(
                        id@,
                    ).unwrap()]
                },
                None => {
                    &&& final(self)@ == old(self)@
                    &&& parse_spec(id@) is None || !accepted(
                        old(self)@,
                        (Call::Remove { id: parse_spec(id@).unwrap(), staffed: false }),
                    )
                },
            },
    {
        let task_id = match TaskId::parse(id) {
            Ok(t) => t,
            Err(_) => {
                return None;
            },
        };
        match self.tree.remove_leaf(&task_id, false) {
            Ok(t) => Some(t),
            Err(_) => None,
        }
    }

    /// Sets the actual cost of the leaf that the text `id` denotes, which
    /// finishes it.
    pub fn set_actual_cost(&mut self, id: &str, actual_cost: u64) -> (r: Option<()>)
        requires
            old(self).wf(),
        ensures
            final(self).wf(),
            rolled_up(old(self)@) ==> rolled_up(final(self)@),
            match r {
                Some(()) => {
                    &&& parse_spec(id@) is Some
                    &&& accepted(
                        old(self)@,
                        (Call::SetActualCost { id: parse_spec(id@).unwrap(), value: actual_cost }),
                    )
                    &&& final(self)@ == after_call(
                        old(self)@,
                        (Call::SetActualCost { id: parse_spec(id@).unwrap(), value: actual_cost }),
                    )
                },
                None => {
                    &&& final(self)@ == old(self)@
                    &&& parse_spec(id@) is None || !accepted(
                        old(self)@,
                        (Call::SetActualCost { id: parse_spec(id@).unwrap(), value: actual_cost }),
                    )
                },
            },
    {
        let task_id = match TaskId::parse(id) {
            Ok(t) => t,
            Err(_) => {
                return None;
            },
        };
        match self.tree.set_actual_cost(&task_id, actual_cost) {
            Ok(()) => Some(()),
            Err(_) => None,
        }
    }

    /// Sets the planned value of the leaf that the text `id` denotes.
    pub fn set_planned_value(&mut self, id: &str, planned_value: u64) -> (r: Option<()>)
        requires
            old(self).wf(),
        ensures
            final(self).wf(),
            rolled_up(old(self)@) ==> rolled_up(final(self)@),
            match r {
                Some(()) => {
                    &&& parse_spec(id@) is Some
                    &&& accepted(
                        old(self)@,
                        (Call::SetPlannedValue {
                            id: parse_spec(id@).unwrap(),
                            value: planned_value,
                        }),
                    )
                    &&& final(self)@ == after_call(
                        old(self)@,
                        (Call::SetPlannedValue {
                            id: parse_spec(id@).unwrap(),
                            value: planned_value,
                        }),
                    )
                },
                None => {
                    &&& final(self)@ == old(self)@
                    &&& parse_spec(id@) is None || !accepted(
                        old(self)@,
                        (Call::SetPlannedValue {
                            id: parse_spec(id@).unwrap(),
                            value: planned_value,
                        }),
                    )
                },
            },
    {
        let task_id = match TaskId::parse(id) {
            Ok(t) => t,
            Err(_) => {
                return None;
            },
        };
        match self.tree.set_planned_value(&task_id, planned_value) {
            Ok(()) => Some(()),
            Err(_) => None,
        }
    }

    /// The project as a graph in the DOT language.
    pub fn to_dot_str(&self) -> (r: String)
        requires
            self.wf(),
        ensures
            r@ == dot_text(self@),
    {
        self.tree.to_dot_str()
    }

    /// The project as an indented tree.
    pub fn to_tree_str(&self) -> (r: String)
        requires
            self.wf(),
        ensures
            r@ == tree_text(self@),
    {
        self.tree.to_tree_str()
    }

    /// The leaves, in no particular order.
    pub fn tasks(&self) -> (r: Vec<&Task>)
        requires
            self.wf(),
        ensures
            is_listing(r@.map_values(|t: &Task| t@), self@, None),
            r@.len() == leaf_count(self@, None),
    {
        self.tree.get_tasks()
    }

    /// The leaves that are not done, in no particular order.
    pub fn todo_tasks(&self) -> (r: Vec<&Task>)
        requires
            self.wf(),
        ensures
            is_listing(r@.map_values(|t: &Task| t@), self@, Some(TaskStatus::InProgress)),
            r@.len() == leaf_count(self@, Some(TaskStatus::InProgress)),
    {
        self.tree.get_todo_tasks()
    }

    /// The leaves that are in progress, in no particular order.
    pub fn in_progress_tasks(&self) -> (r: Vec<&Task>)
        requires
            self.wf(),
        ensures
            is_listing(r@.map_values(|t: &Task| t@), self@, Some(TaskStatus::InProgress)),
            r@.len() == leaf_count(self@, Some(TaskStatus::InProgress)),
    {
        self.tree.get_in_progress_tasks()
    }

    /// The leaves that are done, in no particular order.
    pub fn done_tasks(&self) -> (r: Vec<&Task>)
        requires
            self.wf(),
        ensures
            is_listing(r@.map_values(|t: &Task| t@), self@, Some(TaskStatus::Done)),
            r@.len() == leaf_count(self@, Some(TaskStatus::Done)),
    {
        self.tree.get_done_tasks()
    }
}

} // verus!
