//! Task identifiers: the path of child indices that leads from the root of
//! the tree to a task, written `1.2.3`.

use vstd::prelude::*;
use vstd::string::*;
use crate::decimal::{char_to_digit, decimal, push_decimal};
use crate::error::Error;
use crate::notation::{
    accepted, is_component, lemma_accepted_is_parse, lemma_fail_stays, scan, segments, step, values,
    Scan,
};

verus! {

/// The path from the root to a task. The root's own id is the empty path.
#[derive(Debug, Hash)]
pub struct TaskId {
    id: Vec<u32>,
}

impl View for TaskId {
    type V = Seq<u32>;

    closed spec fn view(&self) -> Seq<u32> {
        self.id@
    }
}

/// Every component is at least 1, as the indices of children are.
pub open spec fn all_positive(v: Seq<u32>) -> bool {
    forall|i: int| 0 <= i < v.len() ==> v[i] >= 1
}

/// The ids of the first `count` children of `v`, in order.
pub open spec fn children_of(v: Seq<u32>, count: nat) -> Seq<Seq<u32>> {
    Seq::new(count, |i: int| v.push((i + 1) as u32))
}

/// The ids on the way from the root down to `v`, both included.
pub open spec fn path_of(v: Seq<u32>) -> Seq<Seq<u32>> {
    Seq::new(v.len() + 1, |i: int| v.take(i))
}

/// The dotted notation of an id: its components in decimal, joined by dots.
pub open spec fn format_spec(v: Seq<u32>) -> Seq<char>
    decreases v.len(),
{
    if v.len() == 0 {
        Seq::<char>::empty()
    } else if v.len() == 1 {
        decimal(v[0] as nat)
    } else {
        format_spec(v.drop_last()).push('.') + decimal(v.last() as nat)
    }
}

/// The id that a text denotes. The empty text denotes the root. Any other
/// text is cut at its dots, and denotes an id if every segment is a run of
/// at least one digit that stands for a number from 1 to the largest that
/// 32 bits hold; the id holds those numbers in order. Zeros in front of a
/// number do not count: `01.2` denotes the same id as `1.2`.
pub open spec fn parse_spec(s: Seq<char>) -> Option<Seq<u32>> {
    if s.len() == 0 {
        Some(Seq::<u32>::empty())
    } else if forall|j: int| 0 <= j < segments(s).len() ==> is_component(#[trigger] segments(s)[j]) {
        Some(values(segments(s)))
    } else {
        None
    }
}

impl Clone for TaskId {
    fn clone(&self) -> (r: Self)
        ensures
            r@ == self@,
    {
        let mut id: Vec<u32> = Vec::new();
        let mut i: usize = 0;
        while i < self.id.len()
            invariant
                i <= self.id.len(),
                id@ == self.id@.take(i as int),
            decreases self.id.len() - i,
        {
            id.push(self.id[i]);
            i = i + 1;
        }
        TaskId { id }
    }
}

impl PartialEq for TaskId {
    fn eq(&self, other: &Self) -> (r: bool) {
        if self.id.len() != other.id.len() {
            return false;
        }
        let mut i: usize = 0;
        while i < self.id.len()
            invariant
                i <= self.id.len(),
                self.id.len() == other.id.len(),
                self.id@.take(i as int) == other.id@.take(i as int),
            decreases self.id.len() - i,
        {
            if self.id[i] != other.id[i] {
                return false;
            }
            i = i + 1;
        }
        assert(self.id@ =~= self.id@.take(i as int));
        assert(other.id@ =~= other.id@.take(i as int));
        true
    }
}

impl Eq for TaskId {

}

impl vstd::std_specs::cmp::PartialEqSpecImpl for TaskId {
    open spec fn obeys_eq_spec() -> bool {
        true
    }

    open spec fn eq_spec(&self, other: &Self) -> bool {
        self@ == other@
    }
}

impl TaskId {
    /// The id with the given components.
    pub fn new(id: Vec<u32>) -> (r: Self)
        ensures
            r@ == id@,
    {
        Self { id }
    }

    /// The components of the id.
    pub fn as_vec(&self) -> (r: &Vec<u32>)
        ensures
            r@ == self@,
    {
        &self.id
    }

    /// The components of the id, for changing them in place.
    pub fn as_vec_mut(&mut self) -> (r: &mut Vec<u32>)
        ensures
            r@ == old(self)@,
            final(self)@ == final(r)@,
    {
        &mut self.id
    }

    /// The components of the id, by value.
    pub fn to_vec(self) -> (r: Vec<u32>)
        ensures
            r@ == self@,
    {
        self.id
    }

    /// The number of components: the depth of the task below the root.
    pub fn len(&self) -> (r: usize)
        ensures
            r == self@.len(),
    {
        self.id.len()
    }

    /// The id of the root: the empty path.
    pub fn get_root_id() -> (r: TaskId)
        ensures
            r@ == Seq::<u32>::empty(),
    {
        TaskId { id: Vec::new() }
    }

    /// The position of the task among its siblings: the last component.
    /// The root has none.
    pub fn child_idx(&self) -> (r: Result<u32, Error>)
        ensures
            match r {
                Ok(n) => self@.len() > 0 && n == self@.last(),
                Err(Error::NoChildIndex(i)) => self@.len() == 0 && i@ == self@,
                Err(_) => false,
            },
    {
        let n = self.id.len();
        if n == 0 {
            return Err(Error::NoChildIndex(self.clone()));
        }
        Ok(self.id[n - 1])
    }

    /// The id of the task's parent: the path without its last component.
    /// The root has none.
    pub fn parent(&self) -> (r: Result<TaskId, Error>)
        ensures
            match r {
                Ok(p) => self@.len() > 0 && p@ == self@.drop_last(),
                Err(Error::NoParent(i)) => self@.len() == 0 && i@ == self@,
                Err(_) => false,
            },
    {
        let n = self.id.len();
        if n == 0 {
            return Err(Error::NoParent(self.clone()));
        }
        let mut id: Vec<u32> = Vec::new();
        let mut i: usize = 0;
        while i < n - 1
            invariant
                n == self.id.len(),
                n > 0,
                i <= n - 1,
                id@ == self.id@.take(i as int),
            decreases n - i,
        {
            id.push(self.id[i]);
            i = i + 1;
        }
        Ok(TaskId { id })
    }

    /// The id of the child with index `child_num`.
    pub fn new_child_id(&self, child_num: u32) -> (r: TaskId)
        ensures
            r@ == self@.push(child_num),
    {
        let mut child = self.clone();
        child.id.push(child_num);
        child
    }

    /// The ids of the children with indices `1..=num_childs`, in order.
    pub fn child_ids(&self, num_childs: u32) -> (r: Vec<TaskId>)
        ensures
            r@.map_values(|t: TaskId| t@) == children_of(self@, num_childs as nat),
    {
        let mut out: Vec<TaskId> = Vec::new();
        let mut k: u32 = 0;
        while k < num_childs
            invariant
                k <= num_childs,
                out@.len() == k,
                forall|i: int| 0 <= i < k ==> (#[trigger] out@[i])@ == self@.push((i + 1) as u32),
            decreases num_childs - k,
        {
            k = k + 1;
            out.push(self.new_child_id(k));
        }
        out
    }

    /// The ids on the way from the root down to the id itself, both included.
    pub fn path(&self) -> (r: Vec<TaskId>)
        ensures
            r@.map_values(|t: TaskId| t@) == path_of(self@),
    {
        let mut out: Vec<TaskId> = Vec::new();
        let mut prefix: Vec<u32> = Vec::new();
        out.push(TaskId { id: Vec::new() });
        let mut i: usize = 0;
        while i < self.id.len()
            invariant
                i <= self.id.len(),
                prefix@ == self@.take(i as int),
                out@.len() == i + 1,
                forall|j: int| 0 <= j <= i ==> (#[trigger] out@[j])@ == self@.take(j),
            decreases self.id.len() - i,
        {
            prefix.push(self.id[i]);
            i = i + 1;
            let step = TaskId { id: prefix };
            out.push(step.clone());
            prefix = step.id;
        }
        out
    }

    /// Reads an id from its dotted notation. The empty text is the root.
    /// Every component is written in digits alone, is at least 1 and fits
    /// 32 bits; zeros in front of it do not count. Anything else is
    /// refused: an empty component, a sign or any other character, zero,
    /// and a number that is too large.
    pub fn parse(id: &str) -> (r: Result<Self, Error>)
        ensures
            match r {
                Ok(t) => parse_spec(id@) == Some(t@),
                Err(Error::BadTaskIdString(s)) => parse_spec(id@) is None && s@ == id@,
                Err(_) => false,
            },
    {
        let n = id.unicode_len();
        let mut done: Vec<u32> = Vec::new();
        let mut cur: u32 = 0;
        let mut in_number = false;
        let mut i: usize = 0;
        proof {
            lemma_accepted_is_parse(id@);
        }
        while i < n
            invariant
                n == id@.len(),
                i <= n,
                accepted(scan(id@)) == parse_spec(id@),
                in_number ==> scan(id@.take(i as int)) == Scan::InNumber(done@, cur),
                !in_number && i == 0 ==> scan(id@.take(i as int)) == Scan::Start && done@.len()
                    == 0,
                !in_number && i > 0 ==> scan(id@.take(i as int)) == Scan::AfterDot(done@),
            decreases n - i,
        {
            let c = id.get_char(i);
            proof {
                assert(id@.take(i + 1).drop_last() =~= id@.take(i as int));
                if i == 0 {
                    assert(done@ =~= Seq::<u32>::empty());
                }
            }
            let mut failed = false;
            match char_to_digit(c) {
                Some(d) => {
                    if in_number {
                        let next: u64 = cur as u64 * 10 + d as u64;
                        if next <= u32::MAX as u64 {
                            cur = next as u32;
                        } else {
                            failed = true;
                        }
                    } else {
                        cur = d;
                        in_number = true;
                    }
                },
                None => {
                    if in_number && c == '.' && cur >= 1 {
                        done.push(cur);
                        in_number = false;
                    } else {
                        failed = true;
                    }
                },
            }
            if failed {
                proof {
                    lemma_fail_stays(id@, i + 1);
                }
                return Err(Error::BadTaskIdString(id.to_owned()));
            }
            i = i + 1;
        }
        proof {
            assert(id@.take(i as int) =~= id@);
        }
        if in_number && cur >= 1 {
            done.push(cur);
            Ok(TaskId { id: done })
        } else if i == 0 {
            Ok(TaskId { id: done })
        } else {
            Err(Error::BadTaskIdString(id.to_owned()))
        }
    }

    /// The id that follows this one among its siblings. The root has none,
    /// and neither has an id whose last component is the largest there is.
    pub fn next_sibling(&self) -> (r: Result<TaskId, Error>)
        ensures
            match r {
                Ok(s) => self@.len() > 0 && self@.last() < u32::MAX && s@ == self@.drop_last().push(
                    (self@.last() + 1) as u32,
                ),
                Err(Error::NoNextSibling(i)) => (self@.len() == 0 || self@.last() == u32::MAX)
                    && i@ == self@,
                Err(_) => false,
            },
    {
        let n = self.id.len();
        if n == 0 || self.id[n - 1] == u32::MAX {
            return Err(Error::NoNextSibling(self.clone()));
        }
        let mut s = self.clone();
        let last = s.id[n - 1];
        s.id[n - 1] = last + 1;
        Ok(s)
    }

    /// The id that precedes this one among its siblings. The root has none,
    /// and neither has a first child.
    pub fn prev_sibling(&self) -> (r: Result<TaskId, Error>)
        ensures
            match r {
                Ok(s) => self@.len() > 0 && self@.last() > 1 && s@ == self@.drop_last().push(
                    (self@.last() - 1) as u32,
                ),
                Err(Error::NoPrevSibling(i)) => (self@.len() == 0 || self@.last() <= 1) && i@
                    == self@,
                Err(_) => false,
            },
    {
        let n = self.id.len();
        if n == 0 || self.id[n - 1] <= 1 {
            return Err(Error::NoPrevSibling(self.clone()));
        }
        let mut s = self.clone();
        let last = s.id[n - 1];
        s.id[n - 1] = last - 1;
        Ok(s)
    }

    /// The dotted notation of the id. The root's is the empty text.
    pub fn to_string(&self) -> (r: String)
        ensures
            r@ == format_spec(self@),
    {
        let mut out = String::new();
        let mut i: usize = 0;
        while i < self.id.len()
            invariant
                i <= self.id.len(),
                out@ == format_spec(self@.take(i as int)),
            decreases self.id.len() - i,
        {
            if i > 0 {
                proof {
                    reveal_strlit(".");
                }
                out.append(".");
            }
            push_decimal(&mut out, self.id[i] as u128);
            i = i + 1;
            proof {
                let t = self@.take(i as int);
                assert(t.drop_last() =~= self@.take(i - 1));
            }
        }
        assert(self@.take(i as int) =~= self@);
        out
    }
}

} // verus!
