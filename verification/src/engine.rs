//! The operations on a project: adding and removing tasks, setting amounts
//! and assigning members. Each keeps the project a sound work breakdown
//! structure.

use vstd::prelude::*;
use crate::amounts::{
    lemma_carried_in_range, lemma_revalued_well_formed, revalued, revalued_upto, total_fits,
};
use crate::calls::{
    accepted, after_call, all_added, can_add, can_set, expanded, pairs, refusal, refused_with,
    set_refusal, Call,
};
use crate::error::Error;
use crate::growth::{added, grown, lemma_added_well_formed, next_child, reopened};
use crate::laws::covers_own_amount;
use crate::members::{is_staffed, Members};
use crate::removal::{
    cleared, lemma_moved_first, lemma_moved_last, lemma_moved_next, lemma_moved_stage,
    lemma_shift_first, lemma_shift_last, lemma_shift_next, lemma_shift_stage,
    lemma_unlinked_well_formed, lowered, moved_subtree, moved_upto, shifted_upto, subtree_shaped,
    vacant,
};
use crate::staffing::{lemma_staff_is_free, staffed, staffed_upto};
use crate::status::{lemma_children_done_on_path, lemma_resettled_well_formed, resettled_from};
use crate::task::{fresh_task, Task, TaskStatus};
use crate::task_id::{path_of, TaskId};
use crate::tasks::Tasks;
use crate::tree::{
    amount, children_present, is_prefix, lemma_ancestor_present, lemma_prefix_basics, rolled_up,
    well_formed,
};

verus! {

/// One of a task's two amounts: its actual cost if `cost`, else its
/// planned value.
fn held(task: &Task, cost: bool) -> (r: u64)
    ensures
        r == amount(task@, cost),
{
    if cost {
        task.get_actual_cost()
    } else {
        task.get_planned_value()
    }
}

impl Tasks {
    /// Adds a leaf named `name` as the last child of the task
    /// `parent_task_id` and returns it. Every task from the root down to
    /// the new leaf is in progress afterwards.
    pub fn add_task(&mut self, parent_task_id: TaskId, name: &str) -> (r: Result<Task, Error>)
        requires
            old(self).wf(),
        ensures
            final(self).wf(),
            rolled_up(old(self)@) && !covers_own_amount(
                old(self)@,
                (Call::Add { parent: parent_task_id@, name: name@ }),
            ) ==> rolled_up(final(self)@),
            final(self)@ == after_call(
                old(self)@,
                (Call::Add { parent: parent_task_id@, name: name@ }),
            ),
            match r {
                Ok(t) => accepted(old(self)@, (Call::Add { parent: parent_task_id@, name: name@ }))
                    && t@ == fresh_task(next_child(old(self)@, parent_task_id@), name@),
                Err(e) => !accepted(
                    old(self)@,
                    (Call::Add { parent: parent_task_id@, name: name@ }),
                ) && refused_with(
                    old(self)@,
                    (Call::Add { parent: parent_task_id@, name: name@ }),
                    e,
                ),
            },
    {
        let ghost before = self@;
        let ghost p = parent_task_id@;
        if !self.contains(&parent_task_id) {
            return Err(Error::TaskNotFound(parent_task_id));
        }
        let children = self.at(&parent_task_id).num_children();
        if children == u32::MAX {
            return Err(Error::TooManyChildren(parent_task_id));
        }
        let n: u32 = children + 1;
        proof {
            lemma_added_well_formed(before, p, name@);
        }
        self.set_children(&parent_task_id, n);
        let task_id = parent_task_id.new_child_id(n);
        let task = Task::new(task_id.clone(), name);
        self.insert(task.clone());
        let ghost c = task_id@;
        let ghost g = grown(before, p, name@);
        let path = task_id.path();
        let mut i: usize = 0;
        assert(path@.len() == path@.map_values(|t: TaskId| t@).len());
        while i < path.len()
            invariant
                self.rep_ok(),
                path@.len() == c.len() + 1,
                well_formed(before),
                before.contains_key(p),
                c == p.push(n),
                g.dom() =~= before.dom().insert(c),
                i <= path.len(),
                path@.map_values(|t: TaskId| t@) == path_of(c),
                self@ == reopened(g, c, i as nat),
            decreases path.len() - i,
        {
            let ghost k = c.take(i as int);
            proof {
                assert(path@.map_values(|t: TaskId| t@)[i as int] == path@[i as int]@);
                if i < c.len() {
                    assert(k =~= p.take(i as int));
                    lemma_ancestor_present(before, p, i as int);
                } else {
                    assert(k =~= c);
                }
            }
            self.set_status(&path[i], TaskStatus::InProgress);
            proof {
                assert forall|x: Seq<u32>| is_prefix(x, c) && x.len() == i implies x == k by {}
            }
            i = i + 1;
        }
        Ok(task)
    }

    /// Adds the given tasks in order, each as a pair of the parent's id in
    /// dotted notation and the new task's name. Stops at the first pair
    /// that cannot be added and returns its error; the tasks before it
    /// stay added.
    pub fn expand(&mut self, arr: &[(&str, &str)]) -> (r: Result<(), Error>)
        requires
            old(self).wf(),
        ensures
            final(self).wf(),
            match r {
                Ok(()) => {
                    &&& all_added(old(self)@, pairs(arr@), arr@.len())
                    &&& final(self)@ == expanded(old(self)@, pairs(arr@), arr@.len())
                },
                Err(e) => exists|n: nat|
                    {
                        &&& n < arr@.len()
                        &&& #[trigger] all_added(old(self)@, pairs(arr@), n)
                        &&& final(self)@ == expanded(old(self)@, pairs(arr@), n)
                        &&& !can_add(final(self)@, pairs(arr@)[n as int])
                        &&& refusal(final(self)@, pairs(arr@)[n as int], e)
                    },
            },
    {
        let ghost m = self@;
        let ghost items = pairs(arr@);
        let mut n: usize = 0;
        while n < arr.len()
            invariant
                self.wf(),
                n <= arr@.len(),
                items == pairs(arr@),
                m == old(self)@,
                all_added(m, items, n as nat),
                self@ == expanded(m, items, n as nat),
            decreases arr.len() - n,
        {
            let parent_id = arr[n].0;
            let task_name = arr[n].1;
            let parent = match TaskId::parse(parent_id) {
                Ok(p) => p,
                Err(e) => {
                    return Err(e);
                },
            };
            match self.add_task(parent, task_name) {
                Ok(_) => {},
                Err(e) => {
                    return Err(e);
                },
            }
            n = n + 1;
        }
        Ok(())
    }

    /// Gives the leaf `task_id` the amount `value` of the given kind and
    /// carries the difference to all its ancestors.
    fn revalue(&mut self, task_id: &TaskId, value: u64, cost: bool) -> (r: Result<(), Error>)
        requires
            old(self).wf(),
        ensures
            final(self).wf(),
            rolled_up(old(self)@) ==> rolled_up(final(self)@),
            match r {
                Ok(()) => can_set(old(self)@, task_id@, cost, value) && final(self)@ == revalued(
                    old(self)@,
                    task_id@,
                    cost,
                    value,
                ),
                Err(e) => !can_set(old(self)@, task_id@, cost, value) && final(self)@ == old(
                    self,
                )@ && set_refusal(old(self)@, task_id@, cost, value, e),
            },
    {
        let ghost m = self@;
        let ghost id = task_id@;
        if !self.contains(task_id) {
            return Err(Error::TaskNotFound(task_id.clone()));
        }
        if self.at(task_id).is_trunk() {
            if cost {
                return Err(Error::TrunkCannotChangeCost(task_id.clone()));
            } else {
                return Err(Error::TrunkCannotChangeValue(task_id.clone()));
            }
        }
        let parent_id = match task_id.parent() {
            Ok(p) => p,
            Err(e) => {
                return Err(e);
            },
        };
        let root_id = TaskId::get_root_id();
        proof {
            lemma_prefix_basics(id, 0, id);
            lemma_carried_in_range(m, id, cost, 0, root_id@);
        }
        let total = held(self.at(&root_id), cost);
        let old_value = held(self.at(task_id), cost);
        if value > u64::MAX - (total - old_value) {
            return Err(Error::AmountOverflow(task_id.clone()));
        }
        proof {
            lemma_revalued_well_formed(m, id, cost, value);
        }
        self.set_amount(task_id, cost, value);
        let path = parent_id.path();
        assert(path@.len() == path@.map_values(|t: TaskId| t@).len());
        let mut i: usize = 0;
        while i < path.len()
            invariant
                self.rep_ok(),
                well_formed(m),
                m.contains_key(id),
                total_fits(m, id, cost, value),
                id.len() > 0,
                parent_id@ == id.drop_last(),
                old_value == amount(m[id], cost),
                path@.len() == id.len(),
                i <= path.len(),
                path@.map_values(|t: TaskId| t@) == path_of(parent_id@),
                self@ == revalued_upto(m, id, cost, value, i as nat),
            decreases path.len() - i,
        {
            let ghost k = id.take(i as int);
            proof {
                assert(path@.map_values(|t: TaskId| t@)[i as int] == path@[i as int]@);
                assert(k =~= parent_id@.take(i as int));
                assert(is_prefix(k, id));
                lemma_carried_in_range(m, id, cost, value, k);
            }
            let before = held(self.at(&path[i]), cost);
            self.set_amount(&path[i], cost, before - old_value + value);
            proof {
                assert forall|x: Seq<u32>| is_prefix(x, id) && x.len() == i implies x == k by {}
            }
            i = i + 1;
        }
        Ok(())
    }

    /// Sets the planned value of the leaf `task_id` and carries the
    /// difference to all its ancestors. Statuses stay as they are.
    pub fn set_planned_value(&mut self, task_id: &TaskId, planned_value: u64) -> (r: Result<
        (),
        Error,
    >)
        requires
            old(self).wf(),
        ensures
            final(self).wf(),
            rolled_up(old(self)@) ==> rolled_up(final(self)@),
            final(self)@ == after_call(
                old(self)@,
                (Call::SetPlannedValue { id: task_id@, value: planned_value }),
            ),
            match r {
                Ok(()) => accepted(
                    old(self)@,
                    (Call::SetPlannedValue { id: task_id@, value: planned_value }),
                ),
                Err(e) => !accepted(
                    old(self)@,
                    (Call::SetPlannedValue { id: task_id@, value: planned_value }),
                ) && refused_with(
                    old(self)@,
                    (Call::SetPlannedValue { id: task_id@, value: planned_value }),
                    e,
                ),
            },
    {
        self.revalue(task_id, planned_value, false)
    }

    /// Sets the actual cost of the leaf `task_id`, which finishes it: the
    /// difference is carried to all its ancestors, the leaf is done, and
    /// each ancestor is done exactly when all its children are.
    pub fn set_actual_cost(&mut self, task_id: &TaskId, actual_cost: u64) -> (r: Result<
        (),
        Error,
    >)
        requires
            old(self).wf(),
        ensures
            final(self).wf(),
            rolled_up(old(self)@) ==> rolled_up(final(self)@),
            final(self)@ == after_call(
                old(self)@,
                (Call::SetActualCost { id: task_id@, value: actual_cost }),
            ),
            match r {
                Ok(()) => accepted(
                    old(self)@,
                    (Call::SetActualCost { id: task_id@, value: actual_cost }),
                ),
                Err(e) => !accepted(
                    old(self)@,
                    (Call::SetActualCost { id: task_id@, value: actual_cost }),
                ) && refused_with(
                    old(self)@,
                    (Call::SetActualCost { id: task_id@, value: actual_cost }),
                    e,
                ),
            },
    {
        match self.revalue(task_id, actual_cost, true) {
            Ok(()) => {},
            Err(e) => {
                return Err(e);
            },
        }
        let ghost m = self@;
        let ghost id = task_id@;
        proof {
            lemma_resettled_well_formed(m, id);
        }
        let path = task_id.path();
        assert(path@.len() == path@.map_values(|t: TaskId| t@).len());
        let mut i: usize = path.len();
        assert(self@ =~= resettled_from(m, id, i as nat)) by {
            assert forall|x: Seq<u32>| is_prefix(x, id) implies x.len() <= id.len() by {}
        }
        while i > 0
            invariant
                self.rep_ok(),
                well_formed(m),
                m.contains_key(id),
                m[id].num_children == 0,
                path@.len() == id.len() + 1,
                i <= path.len(),
                path@.map_values(|t: TaskId| t@) == path_of(id),
                self@ == resettled_from(m, id, i as nat),
            decreases i,
        {
            i = i - 1;
            let ghost k = id.take(i as int);
            proof {
                assert(path@.map_values(|t: TaskId| t@)[i as int] == path@[i as int]@);
                lemma_ancestor_present(m, id, i as int);
                assert(children_present(m, k));
                lemma_children_done_on_path(m, id, i as nat);
            }
            let done = self.children_are_done(&path[i]);
            let status = if done {
                TaskStatus::Done
            } else {
                TaskStatus::InProgress
            };
            self.set_status(&path[i], status);
            proof {
                assert(is_prefix(k, id));
                assert forall|x: Seq<u32>| is_prefix(x, id) && x.len() == i implies x == k by {}
            }
        }
        Ok(())
    }

    /// Moves the task `child_id` and every task below it to the ids that
    /// are one lower at `layer_idx`. The ids it moves to must be free.
    fn subtract_id(&mut self, child_id: &TaskId, layer_idx: usize, Ghost(bound): Ghost<nat>)
        requires
            old(self).rep_ok(),
            old(self)@.contains_key(child_id@),
            layer_idx < child_id@.len(),
            child_id@[layer_idx as int] >= 1,
            subtree_shaped(old(self)@, child_id@),
            vacant(old(self)@, lowered(child_id@, layer_idx as int)),
            forall|k: Seq<u32>| old(self)@.contains_key(k) ==> k.len() <= bound,
        ensures
            final(self).rep_ok(),
            final(self)@ == moved_subtree(old(self)@, child_id@, layer_idx as int),
        decreases bound - child_id@.len(),
    {
        let ghost m = self@;
        let ghost c = child_id@;
        let ghost layer = layer_idx as int;
        let num_child = self.at(child_id).num_children();
        proof {
            lemma_moved_first(m, c, layer);
        }
        let mut task = self.take(child_id);
        let mut new_task_id = child_id.clone();
        let component = new_task_id.as_vec()[layer_idx];
        new_task_id.as_vec_mut()[layer_idx] = component - 1;
        task.set_id(new_task_id);
        self.insert(task);
        let mut t: u32 = 0;
        while t < num_child
            invariant
                self.rep_ok(),
                c == child_id@,
                layer == layer_idx as int,
                0 <= layer < c.len(),
                1 <= c[layer],
                m.contains_key(c),
                num_child == m[c].num_children,
                subtree_shaped(m, c),
                vacant(m, lowered(c, layer)),
                forall|k: Seq<u32>| m.contains_key(k) ==> k.len() <= bound,
                t <= num_child,
                self@ == moved_upto(m, c, layer, t as nat),
            decreases num_child - t,
        {
            t = t + 1;
            let node_id = child_id.new_child_id(t);
            proof {
                lemma_moved_stage(m, c, layer, t, bound);
                lemma_moved_next(m, c, layer, t);
            }
            self.subtract_id(&node_id, layer_idx, Ghost(bound));
        }
        proof {
            lemma_moved_last(m, c, layer);
        }
    }

    /// Takes the leaf `task_id` out of the tree and returns it. Its amounts
    /// are first set to nothing, which carries over to its ancestors and
    /// finishes it; then the siblings behind it move up by one index, each
    /// with its subtree. `has_assignees` tells whether members are still
    /// assigned to the task; such a task stays.
    pub(crate) fn remove_leaf(&mut self, task_id: &TaskId, has_assignees: bool) -> (r: Result<
        Task,
        Error,
    >)
        requires
            old(self).wf(),
        ensures
            final(self).wf(),
            rolled_up(old(self)@) ==> rolled_up(final(self)@),
            final(self)@ == after_call(
                old(self)@,
                (Call::Remove { id: task_id@, staffed: has_assignees }),
            ),
            match r {
                Ok(t) => accepted(
                    old(self)@,
                    (Call::Remove { id: task_id@, staffed: has_assignees }),
                ) && t@ == cleared(old(self)@, task_id@)[task_id@],
                Err(e) => !accepted(
                    old(self)@,
                    (Call::Remove { id: task_id@, staffed: has_assignees }),
                ) && refused_with(
                    old(self)@,
                    (Call::Remove { id: task_id@, staffed: has_assignees }),
                    e,
                ),
            },
    {
        let ghost id = task_id@;
        if !self.contains(task_id) {
            return Err(Error::TaskNotFound(task_id.clone()));
        }
        if self.at(task_id).num_children() > 0 {
            return Err(Error::TrunkCannotBeRemoved(task_id.clone()));
        }
        if has_assignees {
            return Err(Error::CannotRemoveAssignedTask(task_id.clone()));
        }
        proof {
            lemma_prefix_basics(id, 0, id);
        }
        match self.set_actual_cost(task_id, 0) {
            Ok(()) => {},
            Err(e) => {
                return Err(e);
            },
        }
        match self.set_planned_value(task_id, 0) {
            Ok(()) => {},
            Err(e) => {
                return Err(e);
            },
        }
        let ghost m = self@;
        let parent_id = match task_id.parent() {
            Ok(p) => p,
            Err(e) => {
                return Err(e);
            },
        };
        let ghost p = parent_id@;
        proof {
            assert(crate::tree::parent_linked(m, id));
            lemma_unlinked_well_formed(m, id);
            lemma_shift_first(m, id);
            self.lemma_depth();
        }
        let ghost bound = self.depth();
        let siblings: u32 = self.at(&parent_id).num_children();
        self.set_children(&parent_id, siblings - 1);
        let layer_idx = task_id.len() - 1;
        let child_idx = match task_id.child_idx() {
            Ok(n) => n,
            Err(e) => {
                return Err(e);
            },
        };
        let task = self.take(task_id);
        let mut s: u32 = child_idx;
        while s < siblings
            invariant
                self.rep_ok(),
                well_formed(m),
                m.contains_key(id),
                id.len() > 0,
                id == task_id@,
                p == id.drop_last(),
                p == parent_id@,
                layer_idx == id.len() - 1,
                siblings == m[p].num_children,
                1 <= id.last() <= s <= siblings,
                forall|k: Seq<u32>| m.contains_key(k) ==> k.len() <= bound,
                self@ == shifted_upto(m, id, s as nat),
            decreases siblings - s,
        {
            s = s + 1;
            let sibling_id = parent_id.new_child_id(s);
            proof {
                lemma_shift_stage(m, id, s, bound);
                lemma_shift_next(m, id, s);
            }
            self.subtract_id(&sibling_id, layer_idx, Ghost(bound));
        }
        proof {
            lemma_shift_last(m, id);
        }
        Ok(task)
    }

    /// Takes the leaf `task_id` out of the tree and returns it, unless a
    /// member is still assigned to it. Its amounts are first set to
    /// nothing, which carries over to its ancestors and finishes it; then
    /// the siblings behind it move up by one index, each with its subtree.
    pub fn remove(&mut self, task_id: &TaskId, members: &Members) -> (r: Result<Task, Error>)
        requires
            old(self).wf(),
            members.wf(),
        ensures
            final(self).wf(),
            rolled_up(old(self)@) ==> rolled_up(final(self)@),
            final(self)@ == after_call(
                old(self)@,
                (Call::Remove { id: task_id@, staffed: is_staffed(members@, task_id@) }),
            ),
            match r {
                Ok(t) => accepted(
                    old(self)@,
                    (Call::Remove { id: task_id@, staffed: is_staffed(members@, task_id@) }),
                ) && t@ == cleared(old(self)@, task_id@)[task_id@],
                Err(e) => !accepted(
                    old(self)@,
                    (Call::Remove { id: task_id@, staffed: is_staffed(members@, task_id@) }),
                ) && refused_with(
                    old(self)@,
                    (Call::Remove { id: task_id@, staffed: is_staffed(members@, task_id@) }),
                    e,
                ),
            },
    {
        let has_assignees = members.has_assignees(task_id);
        self.remove_leaf(task_id, has_assignees)
    }

    /// The task that follows `task_id` among its siblings.
    pub fn next_sibling(&self, task_id: &TaskId) -> (r: Result<&Task, Error>)
        requires
            self.rep_ok(),
        ensures
            match r {
                Ok(t) => {
                    &&& task_id@.len() > 0
                    &&& task_id@.last() < u32::MAX
                    &&& t@.id == task_id@.drop_last().push((task_id@.last() + 1) as u32)
                    &&& self@.contains_key(t@.id)
                    &&& self@[t@.id] == t@
                },
                Err(Error::NoNextSibling(i)) => {
                    &&& i@ == task_id@
                    &&& task_id@.len() == 0 || task_id@.last() == u32::MAX || !self@.contains_key(
                        task_id@.drop_last().push((task_id@.last() + 1) as u32),
                    )
                },
                Err(_) => false,
            },
    {
        let next_sibling_id = match task_id.next_sibling() {
            Ok(s) => s,
            Err(e) => {
                return Err(e);
            },
        };
        proof {
            self.lemma_keys_are_ids();
        }
        match self.get(&next_sibling_id) {
            Ok(t) => Ok(t),
            Err(_) => Err(Error::NoNextSibling(task_id.clone())),
        }
    }

    /// The task that precedes `task_id` among its siblings.
    pub fn prev_sibling(&self, task_id: &TaskId) -> (r: Result<&Task, Error>)
        requires
            self.rep_ok(),
        ensures
            match r {
                Ok(t) => {
                    &&& task_id@.len() > 0
                    &&& task_id@.last() > 1
                    &&& t@.id == task_id@.drop_last().push((task_id@.last() - 1) as u32)
                    &&& self@.contains_key(t@.id)
                    &&& self@[t@.id] == t@
                },
                Err(Error::NoPrevSibling(i)) => {
                    &&& i@ == task_id@
                    &&& task_id@.len() == 0 || task_id@.last() <= 1 || !self@.contains_key(
                        task_id@.drop_last().push((task_id@.last() - 1) as u32),
                    )
                },
                Err(_) => false,
            },
    {
        let prev_sibling_id = match task_id.prev_sibling() {
            Ok(s) => s,
            Err(e) => {
                return Err(e);
            },
        };
        proof {
            self.lemma_keys_are_ids();
        }
        match self.get(&prev_sibling_id) {
            Ok(t) => Ok(t),
            Err(_) => Err(Error::NoPrevSibling(task_id.clone())),
        }
    }

    /// The name of the project: the name of the root.
    pub fn name(&self) -> (r: &str)
        requires
            self.wf(),
        ensures
            r@ == self@[Seq::<u32>::empty()].name,
    {
        let root = TaskId::get_root_id();
        self.at(&root).name()
    }

    /// The planned value of the whole project: that of the root.
    pub fn planned_value(&self) -> (r: u64)
        requires
            self.wf(),
        ensures
            r == self@[Seq::<u32>::empty()].planned_value,
    {
        let root = TaskId::get_root_id();
        self.at(&root).get_planned_value()
    }

    /// The actual cost of the whole project: that of the root.
    pub fn actual_cost(&self) -> (r: u64)
        requires
            self.wf(),
        ensures
            r == self@[Seq::<u32>::empty()].actual_cost,
    {
        let root = TaskId::get_root_id();
        self.at(&root).get_actual_cost()
    }

    /// Puts the member `name` on, or takes them off, the leaf `task_id`
    /// and every task above it.
    fn restaff(&mut self, task_id: &TaskId, name: &str, add: bool)
        requires
            old(self).wf(),
            old(self)@.contains_key(task_id@),
        ensures
            final(self).wf(),
            rolled_up(old(self)@) ==> rolled_up(final(self)@),
            final(self)@ == staffed(old(self)@, task_id@, name@, add),
    {
        let ghost m = self@;
        let ghost id = task_id@;
        let path = task_id.path();
        assert(path@.len() == path@.map_values(|t: TaskId| t@).len());
        let mut i: usize = 0;
        while i < path.len()
            invariant
                self.rep_ok(),
                well_formed(m),
                m.contains_key(id),
                path@.len() == id.len() + 1,
                i <= path.len(),
                path@.map_values(|t: TaskId| t@) == path_of(id),
                self@ == staffed_upto(m, id, name@, add, i as nat),
            decreases path.len() - i,
        {
            let ghost k = id.take(i as int);
            proof {
                assert(path@.map_values(|t: TaskId| t@)[i as int] == path@[i as int]@);
                lemma_ancestor_present(m, id, i as int);
            }
            self.set_member(&path[i], name, add);
            proof {
                assert(is_prefix(k, id));
                assert forall|x: Seq<u32>| is_prefix(x, id) && x.len() == i implies x == k by {}
            }
            i = i + 1;
        }
        proof {
            lemma_staff_is_free(m, self@);
        }
    }

    /// Assigns the member `name` to the leaf `task_id`: the name is put on
    /// the leaf and on every task above it.
    pub fn assign_task_to_member(&mut self, task_id: &TaskId, name: &str) -> (r: Result<
        (),
        Error,
    >)
        requires
            old(self).wf(),
        ensures
            final(self).wf(),
            rolled_up(old(self)@) ==> rolled_up(final(self)@),
            match r {
                Ok(()) => {
                    &&& old(self)@.contains_key(task_id@)
                    &&& old(self)@[task_id@].num_children == 0
                    &&& final(self)@ == staffed(old(self)@, task_id@, name@, true)
                },
                Err(e) => final(self)@ == old(self)@ && match e {
                    Error::TaskNotFound(i) => !old(self)@.contains_key(task_id@) && i@ == task_id@,
                    Error::TrunkCannotAddMember(i) => old(self)@.contains_key(task_id@) && old(self)@[task_id@].num_children > 0 && i@ == task_id@,
                    _ => false,
                },
            },
    {
        if !self.contains(task_id) {
            return Err(Error::TaskNotFound(task_id.clone()));
        }
        if self.at(task_id).is_trunk() {
            return Err(Error::TrunkCannotAddMember(task_id.clone()));
        }
        self.restaff(task_id, name, true);
        Ok(())
    }

    /// Takes the member `name` off the leaf `task_id` and off every task
    /// above it.
    pub fn remove_member_from_task(&mut self, task_id: &TaskId, name: &str) -> (r: Result<
        (),
        Error,
    >)
        requires
            old(self).wf(),
        ensures
            final(self).wf(),
            rolled_up(old(self)@) ==> rolled_up(final(self)@),
            match r {
                Ok(()) => {
                    &&& old(self)@.contains_key(task_id@)
                    &&& old(self)@[task_id@].num_children == 0
                    &&& old(self)@[task_id@].members.contains(name@)
                    &&& final(self)@ == staffed(old(self)@, task_id@, name@, false)
                },
                Err(e) => final(self)@ == old(self)@ && match e {
                    Error::TaskNotFound(i) => !old(self)@.contains_key(task_id@) && i@ == task_id@,
                    Error::TrunkCannotRemoveMember(i) => old(self)@.contains_key(task_id@) && old(self)@[task_id@].num_children > 0 && i@ == task_id@,
                    Error::CannotRemoveMemberFromTask(i, n) => old(self)@.contains_key(task_id@)
                        && old(self)@[task_id@].num_children == 0 && !old(self)@[task_id@].members.contains(name@) && i@ == task_id@ && n@ == name@,
                    _ => false,
                },
            },
    {
        if !self.contains(task_id) {
            return Err(Error::TaskNotFound(task_id.clone()));
        }
        if self.at(task_id).is_trunk() {
            return Err(Error::TrunkCannotRemoveMember(task_id.clone()));
        } else if !self.at(task_id).has_member(name) {
            return Err(Error::CannotRemoveMemberFromTask(task_id.clone(), name.to_owned()));
        }
        self.restaff(task_id, name, false);
        Ok(())
    }
}

} // verus!
