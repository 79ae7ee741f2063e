//! The members of a project and the leaf tasks that each is assigned to.

use vstd::prelude::*;
use vstd::string::*;
use crate::error::Error;
use crate::keyed;
use crate::render::{spaced, trim_end, trimmed_end};
use crate::task_id::{format_spec, TaskId};
use crate::tasks::Tasks;
use crate::tree::Tree;

verus! {

/// What a member is, as a mathematical value: a name and the ids of the
/// tasks assigned, oldest first.
pub struct MemberView {
    pub name: Seq<char>,
    pub tasks: Seq<Seq<u32>>,
}

/// The ids in `ids` with `id` among them: added at the end unless it is
/// there already.
pub open spec fn with_id(ids: Seq<Seq<u32>>, id: Seq<u32>) -> Seq<Seq<u32>> {
    if ids.contains(id) {
        ids
    } else {
        ids.push(id)
    }
}

/// The ids in `ids` other than `id`, in their order.
pub open spec fn without_id(ids: Seq<Seq<u32>>, id: Seq<u32>) -> Seq<Seq<u32>>
    decreases ids.len(),
{
    if ids.len() == 0 {
        ids
    } else if ids.last() == id {
        without_id(ids.drop_last(), id)
    } else {
        without_id(ids.drop_last(), id).push(ids.last())
    }
}

/// The line that shows a member, given the text that lists their tasks.
pub open spec fn member_line_with(m: MemberView, tasks: Seq<char>) -> Seq<char> {
    m.name + " - ["@ + tasks + "]"@
}

/// The ids in dotted notation.
pub open spec fn formatted(ids: Seq<Seq<u32>>) -> Seq<Seq<char>> {
    ids.map_values(|i: Seq<u32>| format_spec(i))
}

/// The line that shows a member: the name, then the ids of the tasks
/// assigned, in brackets.
pub open spec fn member_line(m: MemberView) -> Seq<char> {
    member_line_with(m, trimmed_end(spaced(formatted(m.tasks))))
}

/// Someone who works on the project.
#[derive(Debug)]
pub struct Member {
    name: String,
    tasks: Vec<TaskId>,
}

impl View for Member {
    type V = MemberView;

    closed spec fn view(&self) -> MemberView {
        MemberView { name: self.name@, tasks: self.tasks@.map_values(|t: TaskId| t@) }
    }
}

impl Clone for Member {
    fn clone(&self) -> (r: Self)
        ensures
            r@ == self@,
    {
        let mut tasks: Vec<TaskId> = Vec::new();
        let mut i: usize = 0;
        while i < self.tasks.len()
            invariant
                i <= self.tasks.len(),
                tasks@.len() == i,
                forall|j: int| 0 <= j < i ==> tasks@[j]@ == self.tasks@[j]@,
            decreases self.tasks.len() - i,
        {
            tasks.push(self.tasks[i].clone());
            i = i + 1;
        }
        assert(tasks@.map_values(|t: TaskId| t@) =~= self.tasks@.map_values(|t: TaskId| t@));
        Member { name: self.name.clone(), tasks }
    }
}

impl Member {
    /// A member with nothing assigned.
    pub fn new(name: &str) -> (r: Self)
        ensures
            r@ == (MemberView { name: name@, tasks: Seq::empty() }),
    {
        let r = Self { name: name.to_owned(), tasks: Vec::new() };
        assert(r@.tasks =~= Seq::<Seq<u32>>::empty());
        r
    }

    /// A member with the given tasks assigned.
    pub fn from_parts(name: &str, tasks: Vec<TaskId>) -> (r: Self)
        ensures
            r@ == (MemberView { name: name@, tasks: tasks@.map_values(|t: TaskId| t@) }),
    {
        Self { name: name.to_owned(), tasks }
    }

    /// The member's name.
    pub fn name(&self) -> (r: &str)
        ensures
            r@ == self@.name,
    {
        self.name.as_str()
    }

    /// Whether the task `task_id` is assigned to the member.
    pub fn is_assigned_to(&self, task_id: &TaskId) -> (r: bool)
        ensures
            r == self@.tasks.contains(task_id@),
    {
        let mut i: usize = 0;
        while i < self.tasks.len()
            invariant
                i <= self.tasks.len(),
                forall|j: int| 0 <= j < i ==> self@.tasks[j] != task_id@,
            decreases self.tasks.len() - i,
        {
            if self.tasks[i] == *task_id {
                assert(self@.tasks[i as int] == task_id@);
                return true;
            }
            i = i + 1;
        }
        false
    }

    /// The ids of the tasks assigned to the member, oldest first.
    pub fn task_ids(&self) -> (r: Vec<&TaskId>)
        ensures
            r@.map_values(|t: &TaskId| t@) == self@.tasks,
    {
        let mut out: Vec<&TaskId> = Vec::new();
        let mut i: usize = 0;
        while i < self.tasks.len()
            invariant
                i <= self.tasks.len(),
                out@.len() == i,
                forall|j: int| 0 <= j < i ==> out@[j]@ == self.tasks@[j]@,
            decreases self.tasks.len() - i,
        {
            out.push(&self.tasks[i]);
            i = i + 1;
        }
        out
    }

    /// Assigns the task `task_id`, unless it is assigned already.
    pub fn add_task(&mut self, task_id: TaskId)
        ensures
            final(self)@ == (MemberView {
                tasks: with_id(old(self)@.tasks, task_id@),
                ..old(self)@
            }),
    {
        if !self.is_assigned_to(&task_id) {
            self.tasks.push(task_id);
            assert(self@.tasks =~= old(self)@.tasks.push(task_id@));
        }
    }

    /// Takes the task `task_id` off the member.
    pub fn remove_task(&mut self, task_id: &TaskId)
        ensures
            final(self)@ == (MemberView {
                tasks: without_id(old(self)@.tasks, task_id@),
                ..old(self)@
            }),
    {
        let mut kept: Vec<TaskId> = Vec::new();
        let ghost ids = self@.tasks;
        let mut i: usize = 0;
        while i < self.tasks.len()
            invariant
                i <= self.tasks.len(),
                ids == self@.tasks,
                kept@.map_values(|t: TaskId| t@) == without_id(ids.take(i as int), task_id@),
            decreases self.tasks.len() - i,
        {
            proof {
                assert(ids.take(i + 1).drop_last() =~= ids.take(i as int));
            }
            if !(self.tasks[i] == *task_id) {
                kept.push(self.tasks[i].clone());
            }
            i = i + 1;
        }
        assert(ids.take(i as int) =~= ids);
        self.tasks = kept;
    }

    /// The ids of the tasks assigned, in dotted notation, each followed by
    /// a blank.
    fn spaced_tasks(&self) -> (r: String)
        ensures
            r@ == spaced(formatted(self@.tasks)),
    {
        let mut out = String::new();
        let ghost texts = formatted(self@.tasks);
        let mut i: usize = 0;
        while i < self.tasks.len()
            invariant
                i <= self.tasks.len(),
                texts == formatted(self@.tasks),
                out@ == spaced(texts.take(i as int)),
            decreases self.tasks.len() - i,
        {
            out.append(self.tasks[i].to_string().as_str());
            out.append(" ");
            i = i + 1;
            proof {
                assert(texts.take(i as int).drop_last() =~= texts.take(i - 1));
            }
        }
        assert(texts.take(i as int) =~= texts);
        out
    }

    /// The line that shows the member, with `tasks` as the text that lists
    /// their tasks.
    pub fn line_with(&self, tasks: &str) -> (r: String)
        ensures
            r@ == member_line_with(self@, tasks@),
    {
        let mut out = self.name.clone();
        out.append(" - [");
        out.append(tasks);
        out.append("]");
        out
    }

    /// The line that shows the member: the name, then the ids of the tasks
    /// assigned, in brackets.
    pub fn to_string(&self) -> (r: String)
        ensures
            r@ == member_line(self@),
    {
        let tasks = trim_end(self.spaced_tasks().as_str());
        self.line_with(tasks.as_str())
    }
}

/// The members as entries: each under their name.
spec fn entries(s: Seq<Member>) -> Seq<(Seq<char>, MemberView)> {
    s.map_values(|m: Member| (m@.name, m@))
}

/// The members as entries of a map: each under their name.
pub open spec fn named(members: Seq<MemberView>) -> Seq<(Seq<char>, MemberView)> {
    members.map_values(|m: MemberView| (m.name, m))
}

/// The registry as a mathematical value: each member under their name.
pub type Registry = Map<Seq<char>, MemberView>;

/// Whether the task `id` can be assigned to the member `name`: it is a
/// stored leaf, and there is a member of that name.
pub open spec fn can_assign(t: Tree, ms: Registry, id: Seq<u32>, name: Seq<char>) -> bool {
    t.contains_key(id) && t[id].num_children == 0 && ms.contains_key(name)
}

/// Whether `e` is the error with which assigning the task `id` to the
/// member `name` is refused: no task has the id, or the task has children,
/// or there is no member of that name.
pub open spec fn assign_refusal(t: Tree, ms: Registry, id: Seq<u32>, name: Seq<char>, e: Error) -> bool {
    match e {
        Error::TaskNotFound(i) => i@ == id && !t.contains_key(id),
        Error::TrunkCannotAddMember(i) => i@ == id && t.contains_key(id) && t[id].num_children
            > 0,
        Error::MemberNotFound(n) => n@ == name && t.contains_key(id) && t[id].num_children == 0
            && !ms.contains_key(name),
        _ => false,
    }
}

/// The registry in which the task `id` is assigned to the member `name`.
pub open spec fn assigned(ms: Registry, id: Seq<u32>, name: Seq<char>) -> Registry {
    ms.insert(name, MemberView { tasks: with_id(ms[name].tasks, id), ..ms[name] })
}

/// Whether the task `id` can be taken off the member `name`: it is a
/// stored leaf, and it is assigned to a member of that name.
pub open spec fn can_release(t: Tree, ms: Registry, id: Seq<u32>, name: Seq<char>) -> bool {
    t.contains_key(id) && t[id].num_children == 0 && ms.contains_key(name)
        && ms[name].tasks.contains(id)
}

/// Whether `e` is the error with which taking the task `id` off the
/// member `name` is refused: no task has the id, or the task has children,
/// or there is no member of that name, or the task is not assigned to
/// them.
pub open spec fn release_refusal(t: Tree, ms: Registry, id: Seq<u32>, name: Seq<char>, e: Error) -> bool {
    match e {
        Error::TaskNotFound(i) => i@ == id && !t.contains_key(id),
        Error::TrunkCannotRemoveMember(i) => i@ == id && t.contains_key(id)
            && t[id].num_children > 0,
        Error::MemberNotFound(n) => n@ == name && t.contains_key(id) && t[id].num_children == 0
            && !ms.contains_key(name),
        Error::CannotRemoveMemberFromTask(i, n) => i@ == id && n@ == name && t.contains_key(id)
            && t[id].num_children == 0 && ms.contains_key(name) && !ms[name].tasks.contains(id),
        _ => false,
    }
}

/// The registry in which the task `id` is taken off the member `name`.
pub open spec fn released(ms: Registry, id: Seq<u32>, name: Seq<char>) -> Registry {
    ms.insert(name, MemberView { tasks: without_id(ms[name].tasks, id), ..ms[name] })
}

/// The registry in which the first `n` of the tasks that the member
/// `name` held in `ms` were taken off them, one after the other.
pub open spec fn released_upto(ms: Registry, name: Seq<char>, n: nat) -> Registry
    decreases n,
{
    if n == 0 {
        ms
    } else {
        released(released_upto(ms, name, (n - 1) as nat), ms[name].tasks[n - 1], name)
    }
}

/// Whether each of the first `n` of the tasks that the member `name` held
/// in `ms` could be taken off them in its turn.
pub open spec fn all_released(t: Tree, ms: Registry, name: Seq<char>, n: nat) -> bool
    decreases n,
{
    n > 0 ==> all_released(t, ms, name, (n - 1) as nat) && can_release(
        t,
        released_upto(ms, name, (n - 1) as nat),
        ms[name].tasks[n - 1],
        name,
    )
}

/// Whether some member is assigned to the task `id`.
pub open spec fn is_staffed(ms: Registry, id: Seq<u32>) -> bool {
    exists|n: Seq<char>| #[trigger] ms.contains_key(n) && ms[n].tasks.contains(id)
}

/// The members of one project.
#[derive(Debug)]
pub struct Members {
    members: Vec<Member>,
}

impl View for Members {
    type V = Registry;

    closed spec fn view(&self) -> Registry {
        keyed::model(entries(self.members@))
    }
}

impl Clone for Members {
    fn clone(&self) -> (r: Self)
        ensures
            r@ == self@,
            r.wf() == self.wf(),
    {
        let mut members: Vec<Member> = Vec::new();
        let mut i: usize = 0;
        while i < self.members.len()
            invariant
                i <= self.members.len(),
                members@.len() == i,
                forall|j: int| 0 <= j < i ==> members@[j]@ == self.members@[j]@,
            decreases self.members.len() - i,
        {
            members.push(self.members[i].clone());
            i = i + 1;
        }
        proof {
            assert(entries(members@) =~= entries(self.members@));
        }
        Members { members }
    }
}

impl Members {
    /// Each name is held once, by the member of that name.
    pub closed spec fn wf(&self) -> bool {
        keyed::distinct(entries(self.members@))
    }

    /// Every member is stored under their own name.
    pub proof fn lemma_names(&self)
        ensures
            forall|n: Seq<char>| #[trigger] self@.contains_key(n) ==> self@[n].name == n,
    {
    }

    /// No members.
    pub fn new() -> (r: Self)
        ensures
            r.wf(),
            r@ == Map::<Seq<char>, MemberView>::empty(),
    {
        let r = Self { members: Vec::new() };
        r
    }

    /// Makes a registry of the given members, if no two of them have the
    /// same name.
    pub fn from_members(members: Vec<Member>) -> (r: Option<Members>)
        ensures
            match r {
                Some(m) => keyed::distinct(named(members@.map_values(|m: Member| m@))) && m.wf()
                    && m@ == keyed::model(named(members@.map_values(|m: Member| m@))),
                None => !keyed::distinct(named(members@.map_values(|m: Member| m@))),
            },
    {
        let ghost e = named(members@.map_values(|m: Member| m@));
        let mut i: usize = 0;
        while i < members.len()
            invariant
                i <= members.len(),
                e == entries(members@),
                e == named(members@.map_values(|m: Member| m@)),
                forall|a: int, b: int| 0 <= a < b < i ==> members@[a]@.name != members@[b]@.name,
            decreases members.len() - i,
        {
            let mut j: usize = 0;
            while j < i
                invariant
                    i < members.len(),
                    j <= i,
                    e == entries(members@),
                    e == named(members@.map_values(|m: Member| m@)),
                    forall|b: int| 0 <= b < j ==> members@[b]@.name != members@[i as int]@.name,
                decreases i - j,
            {
                if members[j].name == members[i].name {
                    proof {
                        assert(e[j as int].0 == members@[j as int]@.name);
                        assert(e[i as int].0 == members@[i as int]@.name);
                    }
                    return None;
                }
                j = j + 1;
            }
            i = i + 1;
        }
        proof {
            assert forall|a: int, b: int|
                0 <= a < e.len() && 0 <= b < e.len() && e[a].0 == e[b].0 implies a == b by {}
        }
        Some(Members { members })
    }

    /// The place of the member named `name`, if there is one.
    fn find(&self, name: &str) -> (r: Option<usize>)
        requires
            self.wf(),
        ensures
            match r {
                Some(i) => i < self.members@.len() && self.members@[i as int]@.name == name@
                    && self@.contains_key(name@) && self@[name@] == self.members@[i as int]@,
                None => !self@.contains_key(name@),
            },
    {
        let wanted = name.to_owned();
        let mut i: usize = 0;
        while i < self.members.len()
            invariant
                self.wf(),
                wanted@ == name@,
                i <= self.members.len(),
                forall|j: int| 0 <= j < i ==> self.members@[j]@.name != name@,
            decreases self.members.len() - i,
        {
            if self.members[i].name == wanted {
                proof {
                    keyed::lemma_at(entries(self.members@), i as int);
                }
                return Some(i);
            }
            i = i + 1;
        }
        proof {
            if self@.contains_key(name@) {
                let j = keyed::slot(entries(self.members@), name@);
                assert(self.members@[j]@.name == name@);
            }
        }
        None
    }

    /// The member named `name`.
    pub fn get(&self, name: &str) -> (r: Result<&Member, Error>)
        requires
            self.wf(),
        ensures
            match r {
                Ok(m) => self@.contains_key(name@) && m@ == self@[name@],
                Err(Error::MemberNotFound(n)) => !self@.contains_key(name@) && n@ == name@,
                Err(_) => false,
            },
    {
        match self.find(name) {
            Some(i) => Ok(&self.members[i]),
            None => Err(Error::MemberNotFound(name.to_owned())),
        }
    }

    /// All members, in no particular order.
    pub fn members(&self) -> (r: Vec<&Member>)
        requires
            self.wf(),
        ensures
            r@.len() == self@.dom().len(),
            forall|i: int|
                0 <= i < r@.len() ==> self@.contains_key(#[trigger] r@[i]@.name)
                    && self@[r@[i]@.name] == r@[i]@,
            forall|i: int, j: int| 0 <= i < j < r@.len() ==> r@[i]@.name != r@[j]@.name,
    {
        let mut out: Vec<&Member> = Vec::new();
        let mut i: usize = 0;
        proof {
            keyed::lemma_len(entries(self.members@));
        }
        while i < self.members.len()
            invariant
                i <= self.members.len(),
                out@.len() == i,
                forall|j: int| 0 <= j < i ==> *out@[j] == self.members@[j],
            decreases self.members.len() - i,
        {
            out.push(&self.members[i]);
            i = i + 1;
        }
        proof {
            assert forall|a: int| 0 <= a < out@.len() implies self@.contains_key(
                #[trigger] out@[a]@.name,
            ) && self@[out@[a]@.name] == out@[a]@ by {
                keyed::lemma_at(entries(self.members@), a);
            }
            assert forall|a: int, b: int| 0 <= a < b < out@.len() implies out@[a]@.name
                != out@[b]@.name by {
                assert(entries(self.members@)[a].0 == self.members@[a]@.name);
                assert(entries(self.members@)[b].0 == self.members@[b]@.name);
            }
        }
        out
    }

    /// How many members there are.
    pub fn len(&self) -> (r: usize)
        requires
            self.wf(),
        ensures
            self@.dom().finite(),
            r == self@.dom().len(),
    {
        proof {
            keyed::lemma_len(entries(self.members@));
        }
        self.members.len()
    }

    /// Whether some member is assigned to the task `task_id`.
    pub fn has_assignees(&self, task_id: &TaskId) -> (r: bool)
        requires
            self.wf(),
        ensures
            r == is_staffed(self@, task_id@),
    {
        let mut i: usize = 0;
        while i < self.members.len()
            invariant
                self.wf(),
                i <= self.members.len(),
                forall|j: int| 0 <= j < i ==> !self.members@[j]@.tasks.contains(task_id@),
            decreases self.members.len() - i,
        {
            if self.members[i].is_assigned_to(task_id) {
                proof {
                    keyed::lemma_at(entries(self.members@), i as int);
                }
                return true;
            }
            i = i + 1;
        }
        proof {
            assert forall|n: Seq<char>| #[trigger] self@.contains_key(n) implies !self@[n].tasks.contains(
                task_id@,
            ) by {
                let j = keyed::slot(entries(self.members@), n);
                assert(self@[n] == self.members@[j]@);
            }
        }
        false
    }

    /// Makes `name` a member with nothing assigned, in place of a member
    /// of that name if there was one.
    pub fn insert(&mut self, name: String) -> (r: Result<(), Error>)
        requires
            old(self).wf(),
        ensures
            final(self).wf(),
            r is Ok,
            final(self)@ == old(self)@.insert(
                name@,
                (MemberView { name: name@, tasks: Seq::empty() }),
            ),
    {
        let member = Member::new(name.as_str());
        match self.find(name.as_str()) {
            Some(i) => {
                proof {
                    keyed::lemma_update(entries(self.members@), i as int, (member@.name, member@));
                    assert(entries(self.members@.update(i as int, member)) =~= entries(
                        self.members@,
                    ).update(i as int, (member@.name, member@)));
                }
                self.members[i] = member;
            },
            None => {
                proof {
                    keyed::lemma_push(entries(self.members@), (member@.name, member@));
                    assert(entries(self.members@.push(member)) =~= entries(self.members@).push(
                        (member@.name, member@),
                    ));
                }
                self.members.push(member);
            },
        }
        Ok(())
    }

    /// Takes the member named `name` out.
    pub fn remove(&mut self, name: &str) -> (r: Result<Member, Error>)
        requires
            old(self).wf(),
        ensures
            final(self).wf(),
            match r {
                Ok(m) => old(self)@.contains_key(name@) && m@ == old(self)@[name@] && final(self)@ == old(self)@.remove(name@),
                Err(Error::MemberNotFound(n)) => !old(self)@.contains_key(name@) && n@ == name@
                    && final(self)@ == old(self)@,
                Err(_) => false,
            },
    {
        match self.find(name) {
            Some(i) => {
                proof {
                    keyed::lemma_remove(entries(self.members@), i as int);
                    assert(entries(self.members@.remove(i as int)) =~= entries(
                        self.members@,
                    ).remove(i as int));
                }
                Ok(self.members.remove(i))
            },
            None => Err(Error::MemberNotFound(name.to_owned())),
        }
    }

    /// Assigns the leaf `id` of `tasks` to the member named `name`.
    pub fn assign_task_to_member(&mut self, id: TaskId, name: &str, tasks: &Tasks) -> (r: Result<
        (),
        Error,
    >)
        requires
            old(self).wf(),
            tasks.rep_ok(),
        ensures
            final(self).wf(),
            match r {
                Ok(()) => can_assign(tasks@, old(self)@, id@, name@) && final(self)@ == assigned(
                    old(self)@,
                    id@,
                    name@,
                ),
                Err(e) => !can_assign(tasks@, old(self)@, id@, name@) && final(self)@ == old(
                    self,
                )@ && assign_refusal(tasks@, old(self)@, id@, name@, e),
            },
    {
        let task = match tasks.get(&id) {
            Ok(t) => t,
            Err(e) => {
                return Err(e);
            },
        };
        if task.is_trunk() {
            return Err(Error::TrunkCannotAddMember(id));
        }
        let at = match self.find(name) {
            Some(i) => i,
            None => {
                return Err(Error::MemberNotFound(name.to_owned()));
            },
        };
        let ghost list = self.members@;
        self.members[at].add_task(id);
        proof {
            let now = self.members@[at as int];
            keyed::lemma_update(entries(list), at as int, (now@.name, now@));
            assert(entries(self.members@) =~= entries(list).update(at as int, (now@.name, now@)));
        }
        Ok(())
    }

    /// Takes the leaf `id` of `tasks` off the member named `name`.
    pub fn remove_member_from_task(&mut self, id: &TaskId, name: &str, tasks: &Tasks) -> (r:
        Result<(), Error>)
        requires
            old(self).wf(),
            tasks.rep_ok(),
        ensures
            final(self).wf(),
            match r {
                Ok(()) => can_release(tasks@, old(self)@, id@, name@) && final(self)@ == released(
                    old(self)@,
                    id@,
                    name@,
                ),
                Err(e) => !can_release(tasks@, old(self)@, id@, name@) && final(self)@ == old(
                    self,
                )@ && release_refusal(tasks@, old(self)@, id@, name@, e),
            },
    {
        let task = match tasks.get(id) {
            Ok(t) => t,
            Err(e) => {
                return Err(e);
            },
        };
        if task.is_trunk() {
            return Err(Error::TrunkCannotRemoveMember(id.clone()));
        }
        let at = match self.find(name) {
            Some(i) => i,
            None => {
                return Err(Error::MemberNotFound(name.to_owned()));
            },
        };
        if !self.members[at].is_assigned_to(id) {
            return Err(Error::CannotRemoveMemberFromTask(id.clone(), name.to_owned()));
        }
        let ghost list = self.members@;
        self.members[at].remove_task(id);
        proof {
            let now = self.members@[at as int];
            keyed::lemma_update(entries(list), at as int, (now@.name, now@));
            assert(entries(self.members@) =~= entries(list).update(at as int, (now@.name, now@)));
        }
        Ok(())
    }

    /// Takes every task off the member named `name`, in the order in which
    /// they were assigned, and then takes the member out. Stops at the
    /// first task that cannot be taken off and returns its error; the
    /// member then stays, without the tasks before that one.
    pub fn remove_member(&mut self, name: &str, tasks: &Tasks) -> (r: Result<Member, Error>)
        requires
            old(self).wf(),
            tasks.rep_ok(),
        ensures
            final(self).wf(),
            match r {
                Ok(m) => {
                    &&& old(self)@.contains_key(name@)
                    &&& all_released(tasks@, old(self)@, name@, old(self)@[name@].tasks.len())
                    &&& m@ == released_upto(
                        old(self)@,
                        name@,
                        old(self)@[name@].tasks.len(),
                    )[name@]
                    &&& final(self)@ == released_upto(
                        old(self)@,
                        name@,
                        old(self)@[name@].tasks.len(),
                    ).remove(name@)
                },
                Err(e) => if old(self)@.contains_key(name@) {
                    exists|n: nat|
                        {
                            &&& n < old(self)@[name@].tasks.len()
                            &&& #[trigger] all_released(tasks@, old(self)@, name@, n)
                            &&& final(self)@ == released_upto(old(self)@, name@, n)
                            &&& release_refusal(
                                tasks@,
                                final(self)@,
                                old(self)@[name@].tasks[n as int],
                                name@,
                                e,
                            )
                        }
                } else {
                    final(self)@ == old(self)@ && (e matches Error::MemberNotFound(n) && n@
                        == name@)
                },
            },
    {
        let ghost before = self@;
        let ids: Vec<TaskId> = match self.find(name) {
            Some(i) => self.members[i].clone().tasks,
            None => {
                return Err(Error::MemberNotFound(name.to_owned()));
            },
        };
        let ghost held = before[name@].tasks;
        let mut n: usize = 0;
        while n < ids.len()
            invariant
                self.wf(),
                tasks.rep_ok(),
                before == old(self)@,
                before.contains_key(name@),
                held == before[name@].tasks,
                ids@.map_values(|t: TaskId| t@) == held,
                n <= ids.len(),
                all_released(tasks@, before, name@, n as nat),
                self@ == released_upto(before, name@, n as nat),
            decreases ids.len() - n,
        {
            match self.remove_member_from_task(&ids[n], name, tasks) {
                Ok(()) => {},
                Err(e) => {
                    return Err(e);
                },
            }
            n = n + 1;
        }
        self.remove(name)
    }
}

} // verus!
