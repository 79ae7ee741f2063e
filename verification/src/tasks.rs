//! The store of all tasks of a project: how the tasks are held, read and
//! listed, and how a stored project is checked when it is loaded.

use vstd::prelude::*;
use crate::error::Error;
use crate::staffing::restaffed;
use crate::task::{fresh_task, Task, TaskStatus, TaskView};
use crate::task_id::TaskId;
use crate::tree::{
    child_sum, children_done, children_present, covered, node_covered, node_settled, parent_linked,
    rolled_up, surplus, well_formed, with_amount, Tree,
};

verus! {

/// The records as entries: each under its id.
spec fn entries(s: Seq<Task>) -> Seq<(Seq<u32>, TaskView)> {
    s.map_values(|t: Task| (t@.id, t@))
}

/// No two records carry the same id.
spec fn distinct_ids(s: Seq<Task>) -> bool {
    crate::keyed::distinct(entries(s))
}

/// The place of the record with id `k` in `s`.
spec fn slot(s: Seq<Task>, k: Seq<u32>) -> int {
    crate::keyed::slot(entries(s), k)
}

/// The records as a map from their ids.
spec fn model(s: Seq<Task>) -> Tree {
    crate::keyed::model(entries(s))
}

/// The longest id among the records.
spec fn deepest(s: Seq<Task>) -> nat
    decreases s.len(),
{
    if s.len() == 0 {
        0
    } else if s.last()@.id.len() > deepest(s.drop_last()) {
        s.last()@.id.len()
    } else {
        deepest(s.drop_last())
    }
}

/// Two different places hold different ids.
proof fn lemma_distinct(s: Seq<Task>, i: int, j: int)
    requires
        distinct_ids(s),
        0 <= i < s.len(),
        0 <= j < s.len(),
        i != j,
    ensures
        s[i]@.id != s[j]@.id,
{
    assert(entries(s)[i].0 == s[i]@.id);
    assert(entries(s)[j].0 == s[j]@.id);
}

/// Each record is in the map, under its id.
proof fn lemma_model_at(s: Seq<Task>, i: int)
    requires
        distinct_ids(s),
        0 <= i < s.len(),
    ensures
        model(s).contains_key(s[i]@.id),
        model(s)[s[i]@.id] == s[i]@,
{
    crate::keyed::lemma_at(entries(s), i);
}

/// A record with a new id is one more task of the map.
proof fn lemma_model_push(s: Seq<Task>, t: Task)
    requires
        distinct_ids(s),
        !model(s).contains_key(t@.id),
    ensures
        distinct_ids(s.push(t)),
        model(s.push(t)) == model(s).insert(t@.id, t@),
{
    crate::keyed::lemma_push(entries(s), (t@.id, t@));
    assert(entries(s.push(t)) =~= entries(s).push((t@.id, t@)));
}

/// Replacing a record by one with the same id replaces the task in
/// the map.
proof fn lemma_model_update(s: Seq<Task>, i: int, t: Task)
    requires
        distinct_ids(s),
        0 <= i < s.len(),
        t@.id == s[i]@.id,
    ensures
        distinct_ids(s.update(i, t)),
        model(s.update(i, t)) == model(s).insert(t@.id, t@),
{
    crate::keyed::lemma_update(entries(s), i, (t@.id, t@));
    assert(entries(s.update(i, t)) =~= entries(s).update(i, (t@.id, t@)));
}

/// Taking a record out takes its task out of the map.
proof fn lemma_model_remove(s: Seq<Task>, i: int)
    requires
        distinct_ids(s),
        0 <= i < s.len(),
    ensures
        distinct_ids(s.remove(i)),
        model(s.remove(i)) == model(s).remove(s[i]@.id),
{
    crate::keyed::lemma_remove(entries(s), i);
    assert(entries(s.remove(i)) =~= entries(s).remove(i));
}

/// The map has as many tasks as there are records.
proof fn lemma_model_len(s: Seq<Task>)
    requires
        distinct_ids(s),
    ensures
        model(s).dom().finite(),
        model(s).dom().len() == s.len(),
{
    crate::keyed::lemma_len(entries(s));
}

/// Some record has an id of the greatest length.
proof fn lemma_deepest_is_reached(s: Seq<Task>) -> (i: int)
    requires
        s.len() > 0,
    ensures
        0 <= i < s.len(),
        s[i]@.id.len() == deepest(s),
    decreases s.len(),
{
    if s.len() == 1 || s.last()@.id.len() > deepest(s.drop_last()) {
        s.len() - 1
    } else {
        lemma_deepest_is_reached(s.drop_last())
    }
}

/// No record has an id longer than the greatest length.
proof fn lemma_deepest(s: Seq<Task>, i: int)
    requires
        0 <= i < s.len(),
    ensures
        s[i]@.id.len() <= deepest(s),
    decreases s.len(),
{
    if i < s.len() - 1 {
        lemma_deepest(s.drop_last(), i);
    }
}

/// The records as entries of a map: each under its id.
pub open spec fn keyed_by_id(records: Seq<TaskView>) -> Seq<(Seq<u32>, TaskView)> {
    records.map_values(|t: TaskView| (t.id, t))
}

/// The tree that the records make up, each standing under its id.
pub open spec fn tree_of(records: Seq<TaskView>) -> Tree {
    crate::keyed::model(keyed_by_id(records))
}

/// Whether the records make up a sound project: no two of them have the
/// same id, and together they are a sound tree.
pub open spec fn loadable(records: Seq<TaskView>) -> bool {
    crate::keyed::distinct(keyed_by_id(records)) && well_formed(tree_of(records))
}

/// The map of the records is the tree of their values.
proof fn lemma_entries(s: Seq<Task>)
    ensures
        entries(s) == keyed_by_id(s.map_values(|t: Task| t@)),
        model(s) == tree_of(s.map_values(|t: Task| t@)),
        distinct_ids(s) == crate::keyed::distinct(keyed_by_id(s.map_values(|t: Task| t@))),
{
}

/// Whether a task is a leaf and, where a status is asked for, has it.
pub open spec fn selected(t: TaskView, status: Option<TaskStatus>) -> bool {
    t.num_children == 0 && (status is None || status == Some(t.status))
}

/// Whether `r` lists each leaf of `m` that has the status asked for, once,
/// as it is stored, and nothing else.
pub open spec fn is_listing(r: Seq<TaskView>, m: Tree, status: Option<TaskStatus>) -> bool {
    &&& forall|i: int|
        0 <= i < r.len() ==> m.contains_key(#[trigger] r[i].id) && m[r[i].id] == r[i] && selected(
            r[i],
            status,
        )
    &&& forall|i: int, j: int| 0 <= i < j < r.len() ==> r[i].id != r[j].id
    &&& forall|k: Seq<u32>|
        #[trigger] m.contains_key(k) && selected(m[k], status) ==> exists|i: int|
            0 <= i < r.len() && r[i].id == k
}

/// The ids of the leaves of `m` that have the status asked for.
pub open spec fn leaf_ids(m: Tree, status: Option<TaskStatus>) -> Set<Seq<u32>> {
    Set::new(|k: Seq<u32>| m.contains_key(k) && selected(m[k], status))
}

/// How many leaves of `m` have the status asked for.
pub open spec fn leaf_count(m: Tree, status: Option<TaskStatus>) -> nat {
    leaf_ids(m, status).len()
}

/// A listing is as long as there are leaves to list.
pub proof fn lemma_listing_len(r: Seq<TaskView>, m: Tree, status: Option<TaskStatus>)
    requires
        is_listing(r, m, status),
    ensures
        leaf_ids(m, status).finite(),
        r.len() == leaf_count(m, status),
{
    let ids = r.map_values(|t: TaskView| t.id);
    assert(ids.no_duplicates()) by {
        assert forall|i: int, j: int| 0 <= i < ids.len() && 0 <= j < ids.len() && i != j implies ids[i]
            != ids[j] by {}
    }
    assert(ids.to_set() =~= leaf_ids(m, status)) by {
        assert forall|k: Seq<u32>| ids.to_set().contains(k) <==> leaf_ids(m, status).contains(
            k,
        ) by {
            if ids.to_set().contains(k) {
                let i = choose|i: int| 0 <= i < ids.len() && ids[i] == k;
                assert(m.contains_key(r[i].id));
            }
            if leaf_ids(m, status).contains(k) {
                let i = choose|i: int| 0 <= i < r.len() && r[i].id == k;
                assert(ids[i] == k);
            }
        }
    }
    ids.unique_seq_to_set();
}

/// The tasks of one project.
#[derive(Debug)]
pub struct Tasks {
    store: Vec<Task>,
}

impl View for Tasks {
    type V = Tree;

    closed spec fn view(&self) -> Tree {
        model(self.store@)
    }
}

impl Clone for Tasks {
    fn clone(&self) -> (r: Self)
        ensures
            r@ == self@,
            r.rep_ok() == self.rep_ok(),
    {
        let mut store: Vec<Task> = Vec::new();
        let mut i: usize = 0;
        while i < self.store.len()
            invariant
                i <= self.store.len(),
                store@.len() == i,
                forall|j: int| 0 <= j < i ==> store@[j]@ == self.store@[j]@,
            decreases self.store.len() - i,
        {
            store.push(self.store[i].clone());
            i = i + 1;
        }
        proof {
            assert(entries(store@) =~= entries(self.store@));
        }
        Tasks { store }
    }
}

impl Tasks {
    /// The store holds each id once.
    pub closed spec fn rep_ok(&self) -> bool {
        distinct_ids(self.store@)
    }

    /// The store is a sound work breakdown structure.
    pub open spec fn wf(&self) -> bool {
        self.rep_ok() && well_formed(self@)
    }

    /// A bound on the length of the stored ids.
    pub closed spec fn depth(&self) -> nat {
        deepest(self.store@)
    }

    /// No stored id is longer than `depth()`.
    pub proof fn lemma_depth(&self)
        ensures
            forall|k: Seq<u32>| self@.contains_key(k) ==> k.len() <= self.depth(),
    {
        assert forall|k: Seq<u32>| self@.contains_key(k) implies k.len() <= self.depth() by {
            lemma_deepest(self.store@, slot(self.store@, k));
        }
    }

    /// A sound tree has a leaf: among the longest ids there is none with
    /// children.
    pub proof fn lemma_has_leaf(&self)
        requires
            self.wf(),
        ensures
            leaf_ids(self@, None).finite(),
            leaf_count(self@, None) >= 1,
    {
        let s = self.store@;
        assert(s.len() > 0);
        let i = lemma_deepest_is_reached(s);
        let k = s[i]@.id;
        lemma_model_at(s, i);
        self.lemma_depth();
        if self@[k].num_children > 0 {
            assert(children_present(self@, k));
            assert(self@.contains_key(k.push(1)));
        }
        lemma_model_len(s);
        vstd::set_lib::lemma_set_subset_finite(self@.dom(), leaf_ids(self@, None));
        vstd::set::axiom_set_contains_len(leaf_ids(self@, None), k);
    }

    /// There are no more leaves, of any status, than tasks, and no more
    /// tasks than a machine word counts: the counts of leaves fit the
    /// numbers that the figures are made of.
    pub proof fn lemma_leaf_counts_fit(&self, status: Option<TaskStatus>)
        requires
            self.rep_ok(),
        ensures
            leaf_ids(self@, status).finite(),
            leaf_count(self@, status) <= self@.dom().len() <= usize::MAX,
            leaf_count(self@, status) <= leaf_count(self@, None),
    {
        lemma_model_len(self.store@);
        assert(self.store.len() == self.store@.len());
        assert(leaf_ids(self@, status).subset_of(self@.dom()));
        assert(leaf_ids(self@, None).subset_of(self@.dom()));
        assert(leaf_ids(self@, status).subset_of(leaf_ids(self@, None)));
        vstd::set_lib::lemma_set_subset_finite(self@.dom(), leaf_ids(self@, status));
        vstd::set_lib::lemma_set_subset_finite(self@.dom(), leaf_ids(self@, None));
        vstd::set_lib::lemma_len_subset(leaf_ids(self@, status), self@.dom());
        vstd::set_lib::lemma_len_subset(leaf_ids(self@, status), leaf_ids(self@, None));
    }

    /// Every task is stored under its own id.
    pub proof fn lemma_keys_are_ids(&self)
        ensures
            forall|k: Seq<u32>| #[trigger] self@.contains_key(k) ==> self@[k].id == k,
    {
    }

    /// A project that holds nothing but its root, which carries the
    /// project's name.
    pub fn new(name: &str) -> (r: Self)
        ensures
            r.wf(),
            rolled_up(r@),
            r@ == Map::<Seq<u32>, TaskView>::empty().insert(
                Seq::<u32>::empty(),
                fresh_task(Seq::<u32>::empty(), name@),
            ),
    {
        let root = Task::new(TaskId::get_root_id(), name);
        let mut store: Vec<Task> = Vec::new();
        proof {
            lemma_model_push(store@, root);
        }
        store.push(root);
        let r = Self { store };
        r
    }

    /// Whether no two records have the same id.
    fn ids_are_distinct(tasks: &Vec<Task>) -> (r: bool)
        ensures
            r == distinct_ids(tasks@),
    {
        let mut i: usize = 0;
        while i < tasks.len()
            invariant
                i <= tasks.len(),
                forall|a: int, b: int| 0 <= a < b < i ==> tasks@[a]@.id != tasks@[b]@.id,
            decreases tasks.len() - i,
        {
            let mut j: usize = 0;
            while j < i
                invariant
                    i < tasks.len(),
                    j <= i,
                    forall|b: int| 0 <= b < j ==> tasks@[b]@.id != tasks@[i as int]@.id,
                decreases i - j,
            {
                if tasks[j].id == tasks[i].id {
                    proof {
                        if distinct_ids(tasks@) {
                            lemma_distinct(tasks@, j as int, i as int);
                        }
                    }
                    return false;
                }
                j = j + 1;
            }
            i = i + 1;
        }
        proof {
            let e = entries(tasks@);
            assert forall|a: int, b: int|
                0 <= a < e.len() && 0 <= b < e.len() && e[a].0 == e[b].0 implies a == b by {}
        }
        true
    }

    /// Whether the record at `i` hangs below a stored parent that counts
    /// it, and all the children that it counts are stored.
    fn is_linked(&self, i: usize) -> (r: bool)
        requires
            self.rep_ok(),
            i < self.store@.len(),
        ensures
            r == (parent_linked(self@, self.store@[i as int]@.id) && children_present(
                self@,
                self.store@[i as int]@.id,
            )),
    {
        let ghost k = self.store@[i as int]@.id;
        proof {
            lemma_model_at(self.store@, i as int);
        }
        let task = &self.store[i];
        match task.id.parent() {
            Err(_) => {},
            Ok(p) => {
                let counted = match (self.find(&p), task.id.child_idx()) {
                    (Some(pi), Ok(last)) => 1 <= last && last <= self.store[pi].num_child,
                    _ => false,
                };
                if !counted {
                    return false;
                }
            },
        }
        let n = task.num_child;
        let mut t: u32 = 0;
        while t < n
            invariant
                self.rep_ok(),
                i < self.store@.len(),
                k == self.store@[i as int]@.id,
                task == &self.store@[i as int],
                self@.contains_key(k),
                self@[k] == self.store@[i as int]@,
                n == self@[k].num_children,
                t <= n,
                forall|u: u32| 1 <= u <= t ==> self@.contains_key(#[trigger] k.push(u)),
            decreases n - t,
        {
            t = t + 1;
            let child = task.id.new_child_id(t);
            if self.find(&child).is_none() {
                return false;
            }
        }
        true
    }

    /// Whether the record at `i` holds at least the sum over its children
    /// in the given amount. The children must be stored.
    fn covers(&self, i: usize, cost: bool) -> (r: bool)
        requires
            self.rep_ok(),
            i < self.store@.len(),
            children_present(self@, self.store@[i as int]@.id),
        ensures
            r == (surplus(self@, self.store@[i as int]@.id, cost) >= 0),
    {
        let ghost k = self.store@[i as int]@.id;
        proof {
            lemma_model_at(self.store@, i as int);
        }
        let task = &self.store[i];
        let held: u64 = if cost {
            task.actual_cost
        } else {
            task.planned_value
        };
        let n = task.num_child;
        let mut sum: u128 = 0;
        let mut t: u32 = 0;
        while t < n
            invariant
                self.rep_ok(),
                i < self.store@.len(),
                k == self.store@[i as int]@.id,
                task == &self.store@[i as int],
                self@.contains_key(k),
                self@[k] == self.store@[i as int]@,
                children_present(self@, k),
                n == self@[k].num_children,
                t <= n,
                sum == child_sum(self@, k, t as nat, cost),
                sum <= t * 0xffff_ffff_ffff_ffff,
            decreases n - t,
        {
            t = t + 1;
            let child = task.id.new_child_id(t);
            let c = self.at(&child);
            let part: u64 = if cost {
                c.actual_cost
            } else {
                c.planned_value
            };
            assert(t * 0xffff_ffff_ffff_ffff <= 0xffff_ffff * 0xffff_ffff_ffff_ffff)
                by (nonlinear_arith)
                requires
                    t <= 0xffff_ffff,
            ;
            assert((t - 1) * 0xffff_ffff_ffff_ffff + 0xffff_ffff_ffff_ffff == t
                * 0xffff_ffff_ffff_ffff) by (nonlinear_arith);
            sum = sum + part as u128;
        }
        sum <= held as u128
    }

    /// Whether the record at `i`, if it has children, is done exactly
    /// when all of them are. The children must be stored.
    fn is_settled(&self, i: usize) -> (r: bool)
        requires
            self.rep_ok(),
            i < self.store@.len(),
            children_present(self@, self.store@[i as int]@.id),
        ensures
            r == node_settled(self@, self.store@[i as int]@.id),
    {
        proof {
            lemma_model_at(self.store@, i as int);
        }
        let task = &self.store[i];
        if task.num_child == 0 {
            return true;
        }
        let all_done = self.children_are_done(&task.id);
        (task.status == TaskStatus::Done) == all_done
    }

    /// Makes a project of the given records, if they make up a sound one.
    pub fn from_tasks(tasks: Vec<Task>) -> (r: Option<Tasks>)
        ensures
            match r {
                Some(t) => loadable(tasks@.map_values(|t: Task| t@)) && t.wf() && t@ == tree_of(
                    tasks@.map_values(|t: Task| t@),
                ),
                None => !loadable(tasks@.map_values(|t: Task| t@)),
            },
    {
        let ghost records = tasks@.map_values(|t: Task| t@);
        proof {
            lemma_entries(tasks@);
        }
        if !Self::ids_are_distinct(&tasks) {
            return None;
        }
        let project = Tasks { store: tasks };
        let root = TaskId::get_root_id();
        if project.find(&root).is_none() {
            return None;
        }
        let ghost m = project@;
        let mut i: usize = 0;
        while i < project.store.len()
            invariant
                project.rep_ok(),
                m == project@,
                m == tree_of(records),
                records == tasks@.map_values(|t: Task| t@),
                crate::keyed::distinct(keyed_by_id(records)),
                m.contains_key(Seq::<u32>::empty()),
                i <= project.store.len(),
                forall|j: int|
                    0 <= j < i ==> {
                        let k = #[trigger] project.store@[j]@.id;
                        &&& parent_linked(m, k)
                        &&& children_present(m, k)
                        &&& node_covered(m, k)
                        &&& node_settled(m, k)
                    },
            decreases project.store.len() - i,
        {
            let ghost k = project.store@[i as int]@.id;
            proof {
                lemma_model_at(project.store@, i as int);
            }
            if !project.is_linked(i) {
                return None;
            }
            if !project.covers(i, false) || !project.covers(i, true) {
                proof {
                    if covered(m) {
                        assert(node_covered(m, k));
                    }
                }
                return None;
            }
            if !project.is_settled(i) {
                return None;
            }
            i = i + 1;
        }
        proof {
            assert forall|k: Seq<u32>| #[trigger] m.contains_key(k) implies parent_linked(m, k)
                && children_present(m, k) && node_covered(m, k) && node_settled(m, k) && m[k].id
                == k by {
                // `k` is the id of one of the records, all of which were checked.
                assert(project.store@[slot(project.store@, k)]@.id == k);
            }
        }
        Some(project)
    }

    /// All tasks, in no particular order, as they are stored. Making a
    /// project of them gives the same project.
    pub fn all(&self) -> (r: Vec<&Task>)
        requires
            self.rep_ok(),
        ensures
            crate::keyed::distinct(keyed_by_id(r@.map_values(|t: &Task| t@))),
            tree_of(r@.map_values(|t: &Task| t@)) == self@,
            self@.dom().finite(),
            r@.len() == self@.dom().len(),
    {
        let mut out: Vec<&Task> = Vec::new();
        let mut i: usize = 0;
        while i < self.store.len()
            invariant
                i <= self.store.len(),
                out@.len() == i,
                forall|j: int| 0 <= j < i ==> *out@[j] == self.store@[j],
            decreases self.store.len() - i,
        {
            out.push(&self.store[i]);
            i = i + 1;
        }
        proof {
            lemma_entries(self.store@);
            lemma_model_len(self.store@);
            assert(out@.map_values(|t: &Task| t@) =~= self.store@.map_values(|t: Task| t@));
        }
        out
    }

    /// The place of the task with the given id, if it is stored.
    fn find(&self, task_id: &TaskId) -> (r: Option<usize>)
        requires
            self.rep_ok(),
        ensures
            match r {
                Some(i) => i < self.store@.len() && self.store@[i as int]@.id == task_id@
                    && self@.contains_key(task_id@) && self@[task_id@] == self.store@[i as int]@,
                None => !self@.contains_key(task_id@),
            },
    {
        let mut i: usize = 0;
        while i < self.store.len()
            invariant
                self.rep_ok(),
                i <= self.store.len(),
                forall|j: int| 0 <= j < i ==> self.store@[j]@.id != task_id@,
            decreases self.store.len() - i,
        {
            if self.store[i].id == *task_id {
                proof {
                    lemma_model_at(self.store@, i as int);
                }
                return Some(i);
            }
            i = i + 1;
        }
        None
    }

    /// The place of a task that is known to be stored.
    fn index_of(&self, task_id: &TaskId) -> (i: usize)
        requires
            self.rep_ok(),
            self@.contains_key(task_id@),
        ensures
            i < self.store@.len(),
            self.store@[i as int]@.id == task_id@,
            self@[task_id@] == self.store@[i as int]@,
    {
        let ghost at = slot(self.store@, task_id@);
        let n = self.store.len();
        let mut i: usize = 0;
        loop
            invariant
                self.rep_ok(),
                n == self.store@.len(),
                0 <= at < self.store@.len(),
                self.store@[at]@.id == task_id@,
                i <= at,
            decreases at - i,
        {
            if self.store[i].id == *task_id {
                proof {
                    lemma_model_at(self.store@, i as int);
                }
                return i;
            }
            i = i + 1;
        }
    }

    /// A task that is known to be stored.
    pub(crate) fn at(&self, task_id: &TaskId) -> (r: &Task)
        requires
            self.rep_ok(),
            self@.contains_key(task_id@),
        ensures
            r@ == self@[task_id@],
    {
        &self.store[self.index_of(task_id)]
    }

    /// The task with the given id.
    pub fn get(&self, task_id: &TaskId) -> (r: Result<&Task, Error>)
        requires
            self.rep_ok(),
        ensures
            match r {
                Ok(t) => self@.contains_key(task_id@) && t@ == self@[task_id@],
                Err(Error::TaskNotFound(i)) => !self@.contains_key(task_id@) && i@ == task_id@,
                Err(_) => false,
            },
    {
        match self.find(task_id) {
            Some(i) => Ok(&self.store[i]),
            None => Err(Error::TaskNotFound(task_id.clone())),
        }
    }

    /// How many tasks are stored, the root included.
    pub fn len(&self) -> (r: usize)
        requires
            self.rep_ok(),
        ensures
            self@.dom().finite(),
            r == self@.dom().len(),
    {
        proof {
            lemma_model_len(self.store@);
        }
        self.store.len()
    }

    /// Whether a task with the given id is stored.
    pub(crate) fn contains(&self, task_id: &TaskId) -> (r: bool)
        requires
            self.rep_ok(),
        ensures
            r == self@.contains_key(task_id@),
    {
        self.find(task_id).is_some()
    }

    /// Replaces one amount of a stored task.
    pub(crate) fn set_amount(&mut self, task_id: &TaskId, cost: bool, v: u64)
        requires
            old(self).rep_ok(),
            old(self)@.contains_key(task_id@),
        ensures
            final(self).rep_ok(),
            final(self)@ == old(self)@.insert(
                task_id@,
                with_amount(old(self)@[task_id@], cost, v),
            ),
    {
        let idx = self.index_of(task_id);
        proof {
            let o = self.store@[idx as int];
            let t = if cost {
                Task { actual_cost: v, ..o }
            } else {
                Task { planned_value: v, ..o }
            };
            lemma_model_update(self.store@, idx as int, t);
        }
        if cost {
            self.store[idx].actual_cost = v;
        } else {
            self.store[idx].planned_value = v;
        }
    }

    /// Replaces the status of a stored task.
    pub(crate) fn set_status(&mut self, task_id: &TaskId, status: TaskStatus)
        requires
            old(self).rep_ok(),
            old(self)@.contains_key(task_id@),
        ensures
            final(self).rep_ok(),
            final(self)@ == old(self)@.insert(
                task_id@,
                (TaskView { status, ..old(self)@[task_id@] }),
            ),
    {
        let idx = self.index_of(task_id);
        proof {
            let t = Task { status, ..self.store@[idx as int] };
            lemma_model_update(self.store@, idx as int, t);
        }
        self.store[idx].status = status;
    }

    /// Replaces the number of children that a stored task counts.
    pub(crate) fn set_children(&mut self, task_id: &TaskId, num_child: u32)
        requires
            old(self).rep_ok(),
            old(self)@.contains_key(task_id@),
        ensures
            final(self).rep_ok(),
            final(self)@ == old(self)@.insert(
                task_id@,
                (TaskView { num_children: num_child, ..old(self)@[task_id@] }),
            ),
    {
        let idx = self.index_of(task_id);
        proof {
            let t = Task { num_child, ..self.store@[idx as int] };
            lemma_model_update(self.store@, idx as int, t);
        }
        self.store[idx].num_child = num_child;
    }

    /// Puts a member on a stored task (`add`), or takes them off it.
    pub(crate) fn set_member(&mut self, task_id: &TaskId, name: &str, add: bool)
        requires
            old(self).rep_ok(),
            old(self)@.contains_key(task_id@),
        ensures
            final(self).rep_ok(),
            final(self)@ == old(self)@.insert(
                task_id@,
                (TaskView {
                    members: restaffed(old(self)@[task_id@].members, name@, add),
                    ..old(self)@[task_id@]
                }),
            ),
    {
        let idx = self.index_of(task_id);
        let ghost records = self.store@;
        if add {
            self.store[idx].add_member(name);
        } else {
            self.store[idx].remove_member(name);
        }
        proof {
            lemma_model_update(records, idx as int, self.store@[idx as int]);
        }
    }

    /// Takes a stored task out of the store.
    pub(crate) fn take(&mut self, task_id: &TaskId) -> (r: Task)
        requires
            old(self).rep_ok(),
            old(self)@.contains_key(task_id@),
        ensures
            final(self).rep_ok(),
            r@ == old(self)@[task_id@],
            final(self)@ == old(self)@.remove(task_id@),
    {
        let idx = self.index_of(task_id);
        proof {
            lemma_model_remove(self.store@, idx as int);
        }
        self.store.remove(idx)
    }

    /// Whether every child of the task `task_id` is done.
    pub(crate) fn children_are_done(&self, task_id: &TaskId) -> (r: bool)
        requires
            self.rep_ok(),
            self@.contains_key(task_id@),
            children_present(self@, task_id@),
        ensures
            r == children_done(self@, task_id@),
    {
        let n = self.store[self.index_of(task_id)].num_child;
        let mut t: u32 = 0;
        while t < n
            invariant
                self.rep_ok(),
                self@.contains_key(task_id@),
                children_present(self@, task_id@),
                n == self@[task_id@].num_children,
                t <= n,
                forall|u: u32| 1 <= u <= t ==> (#[trigger] self@[task_id@.push(u)]).status
                    == TaskStatus::Done,
            decreases n - t,
        {
            t = t + 1;
            let child = task_id.new_child_id(t);
            if self.store[self.index_of(&child)].status != TaskStatus::Done {
                return false;
            }
        }
        true
    }

    /// Stores `task` under its id, in place of what was stored there.
    pub(crate) fn insert(&mut self, task: Task)
        requires
            old(self).rep_ok(),
        ensures
            final(self).rep_ok(),
            final(self)@ == old(self)@.insert(task@.id, task@),
    {
        match self.find(&task.id) {
            Some(i) => {
                proof {
                    lemma_model_update(self.store@, i as int, task);
                }
                self.store[i] = task;
            },
            None => {
                proof {
                    lemma_model_push(self.store@, task);
                }
                self.store.push(task);
            },
        }
    }

    /// Takes the task with the given id out of the store.
    pub(crate) fn remove_task(&mut self, task_id: &TaskId) -> (r: Result<Task, Error>)
        requires
            old(self).rep_ok(),
        ensures
            final(self).rep_ok(),
            match r {
                Ok(t) => old(self)@.contains_key(task_id@) && t@ == old(self)@[task_id@]
                    && final(self)@ == old(self)@.remove(task_id@),
                Err(Error::TaskNotFound(i)) => !old(self)@.contains_key(task_id@) && i@
                    == task_id@ && final(self)@ == old(self)@,
                Err(_) => false,
            },
    {
        match self.find(task_id) {
            Some(i) => {
                proof {
                    lemma_model_remove(self.store@, i as int);
                }
                Ok(self.store.remove(i))
            },
            None => Err(Error::TaskNotFound(task_id.clone())),
        }
    }

    /// The leaves that have the status asked for, or all leaves.
    fn select(&self, status: Option<TaskStatus>) -> (r: Vec<&Task>)
        requires
            self.rep_ok(),
        ensures
            is_listing(r@.map_values(|t: &Task| t@), self@, status),
    {
        let mut out: Vec<&Task> = Vec::new();
        let ghost mut places: Seq<int> = Seq::empty();
        let mut i: usize = 0;
        while i < self.store.len()
            invariant
                self.rep_ok(),
                i <= self.store.len(),
                places.len() == out@.len(),
                forall|j: int|
                    0 <= j < out@.len() ==> 0 <= #[trigger] places[j] < i && *out@[j]
                        == self.store@[places[j]] && selected(out@[j]@, status),
                forall|a: int, b: int| 0 <= a < b < places.len() ==> places[a] < places[b],
                forall|x: int|
                    0 <= x < i && selected(#[trigger] self.store@[x]@, status) ==> exists|j: int|
                        0 <= j < out@.len() && places[j] == x,
            decreases self.store.len() - i,
        {
            let t = &self.store[i];
            let wanted = t.num_child == 0 && match status {
                None => true,
                Some(s) => t.status == s,
            };
            if wanted {
                let ghost old_places = places;
                let ghost old_len = out@.len();
                out.push(t);
                proof {
                    places = places.push(i as int);
                    assert forall|j: int| 0 <= j < out@.len() implies 0 <= #[trigger] places[j] < i
                        + 1 && *out@[j] == self.store@[places[j]] && selected(
                        out@[j]@,
                        status,
                    ) by {}
                    assert forall|x: int|
                        0 <= x < i + 1 && selected(#[trigger] self.store@[x]@, status) implies exists|
                        j: int,
                    |
                        0 <= j < out@.len() && places[j] == x by {
                        if x < i {
                            let j = choose|j: int| 0 <= j < old_len && old_places[j] == x;
                            assert(places[j] == x);
                        } else {
                            assert(places[old_len as int] == x);
                        }
                    }
                }
            }
            i = i + 1;
        }
        proof {
            let r = out@.map_values(|t: &Task| t@);
            assert forall|j: int| 0 <= j < r.len() implies self@.contains_key(#[trigger] r[j].id)
                && self@[r[j].id] == r[j] && selected(r[j], status) by {
                lemma_model_at(self.store@, places[j]);
            }
            assert forall|a: int, b: int| 0 <= a < b < r.len() implies r[a].id != r[b].id by {
                lemma_distinct(self.store@, places[a], places[b]);
            }
            assert forall|k: Seq<u32>| #[trigger]
                self@.contains_key(k) && selected(self@[k], status) implies exists|j: int|
                0 <= j < r.len() && r[j].id == k by {
                let x = slot(self.store@, k);
                let j = choose|j: int| 0 <= j < out@.len() && places[j] == x;
                assert(r[j].id == k);
            }
        }
        out
    }

    /// The leaves, in no particular order. Only leaves carry work of their
    /// own.
    pub fn get_tasks(&self) -> (r: Vec<&Task>)
        requires
            self.rep_ok(),
        ensures
            is_listing(r@.map_values(|t: &Task| t@), self@, None),
            r@.len() == leaf_count(self@, None),
    {
        let r = self.select(None);
        proof {
            lemma_listing_len(r@.map_values(|t: &Task| t@), self@, None);
        }
        r
    }

    /// The leaves that are not done, in no particular order.
    pub fn get_todo_tasks(&self) -> (r: Vec<&Task>)
        requires
            self.rep_ok(),
        ensures
            is_listing(r@.map_values(|t: &Task| t@), self@, Some(TaskStatus::InProgress)),
            r@.len() == leaf_count(self@, Some(TaskStatus::InProgress)),
    {
        let r = self.select(Some(TaskStatus::InProgress));
        proof {
            lemma_listing_len(r@.map_values(|t: &Task| t@), self@, Some(TaskStatus::InProgress));
        }
        r
    }

    /// The leaves that are in progress, in no particular order.
    pub fn get_in_progress_tasks(&self) -> (r: Vec<&Task>)
        requires
            self.rep_ok(),
        ensures
            is_listing(r@.map_values(|t: &Task| t@), self@, Some(TaskStatus::InProgress)),
            r@.len() == leaf_count(self@, Some(TaskStatus::InProgress)),
    {
        let r = self.select(Some(TaskStatus::InProgress));
        proof {
            lemma_listing_len(r@.map_values(|t: &Task| t@), self@, Some(TaskStatus::InProgress));
        }
        r
    }

    /// The leaves that are done, in no particular order.
    pub fn get_done_tasks(&self) -> (r: Vec<&Task>)
        requires
            self.rep_ok(),
        ensures
            is_listing(r@.map_values(|t: &Task| t@), self@, Some(TaskStatus::Done)),
            r@.len() == leaf_count(self@, Some(TaskStatus::Done)),
    {
        let r = self.select(Some(TaskStatus::Done));
        proof {
            lemma_listing_len(r@.map_values(|t: &Task| t@), self@, Some(TaskStatus::Done));
        }
        r
    }

}

} // verus!
