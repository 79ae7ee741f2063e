//! Text views of a project: a graph in the DOT language and an indented
//! tree.

use vstd::prelude::*;
use vstd::string::*;
use crate::decimal::{decimal, push_decimal};
use crate::metrics::{cpi_of, cv_of, earned_value_of, spi_of, sv_of, Ratio};
use crate::task::{Task, TaskStatus, TaskView};
use crate::task_id::{format_spec, TaskId};
use crate::tasks::Tasks;
use crate::tree::{children_present, fits, tree_depth, well_shaped, Tree};

verus! {

/// What `str::trim_end` leaves of a text: the text without the white space
/// at its end.
pub uninterp spec fn trimmed_end(s: Seq<char>) -> Seq<char>;

/// Calls `str::trim_end`, which returns the text without its trailing
/// white space, as Unicode defines white space. The result is a function
/// of the text alone; it is named here, not spelled out.
#[verifier::external_body]
pub(crate) fn trim_end(s: &str) -> (r: String)
    ensures
        r@ == trimmed_end(s@),
{
    s.trim_end().to_owned()
}

/// The mark of a status.
pub open spec fn icon(status: TaskStatus) -> Seq<char> {
    match status {
        TaskStatus::InProgress => "\u{2717}"@,
        TaskStatus::Done => "\u{2714}"@,
    }
}

/// The names, each followed by a blank.
pub open spec fn spaced(names: Seq<Seq<char>>) -> Seq<char>
    decreases names.len(),
{
    if names.len() == 0 {
        Seq::<char>::empty()
    } else {
        spaced(names.drop_last()) + names.last() + " "@
    }
}

/// The label of a task in a graph, given the text that lists its members:
/// id, name and mark, then the amounts, then the members in brackets.
pub open spec fn dot_label_with(t: TaskView, members: Seq<char>) -> Seq<char> {
    format_spec(t.id) + " - "@ + t.name + " "@ + icon(t.status) + "\npv: "@ + decimal(
        t.planned_value as nat,
    ) + " ac: "@ + decimal(t.actual_cost as nat) + "\n["@ + members + "]"@
}

/// The label of a task in a graph.
pub open spec fn dot_label(t: TaskView) -> Seq<char> {
    dot_label_with(t, trimmed_end(spaced(t.members)))
}

/// The line of a task in a tree view, given the text that lists its
/// members: the root shows its name and mark, any other task its id, name,
/// mark and members.
pub open spec fn line_label_with(t: TaskView, members: Seq<char>) -> Seq<char> {
    if t.id.len() > 0 {
        format_spec(t.id) + " - "@ + t.name + " "@ + icon(t.status) + " - ["@ + members + "]"@
    } else {
        t.name + " "@ + icon(t.status)
    }
}

/// The line of a task in a tree view.
pub open spec fn line_label(t: TaskView) -> Seq<char> {
    line_label_with(t, trimmed_end(spaced(t.members)))
}

/// A fraction as text: a minus sign where it is negative, then numerator,
/// slash and denominator.
pub open spec fn ratio_text(r: Ratio) -> Seq<char> {
    (if r.negative {
        "-"@
    } else {
        Seq::<char>::empty()
    }) + decimal(r.numerator as nat) + "/"@ + decimal(r.denominator as nat)
}

/// Appends a fraction as text.
pub fn push_ratio(out: &mut String, r: Ratio)
    ensures
        final(out)@ == old(out)@ + ratio_text(r),
{
    let ghost before = out@;
    if r.negative {
        out.append("-");
    }
    push_decimal(out, r.numerator);
    out.append("/");
    push_decimal(out, r.denominator);
    assert(out@ =~= before + ratio_text(r));
}

impl Task {
    /// The names of the task's members, each followed by a blank.
    fn spaced_members(&self) -> (r: String)
        ensures
            r@ == spaced(self@.members),
    {
        let mut out = String::new();
        let ghost names = self@.members;
        let mut i: usize = 0;
        assert(names.take(0) =~= Seq::<Seq<char>>::empty());
        while i < self.members_names.len()
            invariant
                i <= self.members_names.len(),
                names == self@.members,
                out@ == spaced(names.take(i as int)),
            decreases self.members_names.len() - i,
        {
            let ghost before = out@;
            out.append(self.members_names[i].as_str());
            out.append(" ");
            i = i + 1;
            proof {
                assert(names.take(i as int).drop_last() =~= names.take(i - 1));
                assert(names.take(i as int).last() == names[i - 1]);
                assert(out@ =~= before + names[i - 1] + " "@);
            }
        }
        assert(names.take(i as int) =~= names);
        out
    }

    /// The label of the task in a graph, with `members` as the text that
    /// lists its members.
    pub fn dot_str_with(&self, members: &str) -> (r: String)
        ensures
            r@ == dot_label_with(self@, members@),
    {
        let mut out = self.id.to_string();
        out.append(" - ");
        out.append(self.name.as_str());
        out.append(" ");
        out.append(self.status.to_icon());
        out.append("\npv: ");
        push_decimal(&mut out, self.planned_value as u128);
        out.append(" ac: ");
        push_decimal(&mut out, self.actual_cost as u128);
        out.append("\n[");
        out.append(members);
        out.append("]");
        assert(out@ =~= dot_label_with(self@, members@));
        out
    }

    /// The label of the task in a graph: id, name and mark, then the
    /// amounts, then the members.
    pub fn to_dot_str(&self) -> (r: String)
        ensures
            r@ == dot_label(self@),
    {
        let members = trim_end(self.spaced_members().as_str());
        self.dot_str_with(members.as_str())
    }

    /// The line of the task in a tree view, with `members` as the text
    /// that lists its members.
    pub fn line_with(&self, members: &str) -> (r: String)
        ensures
            r@ == line_label_with(self@, members@),
    {
        if self.id.len() > 0 {
            let mut out = self.id.to_string();
            out.append(" - ");
            out.append(self.name.as_str());
            out.append(" ");
            out.append(self.status.to_icon());
            out.append(" - [");
            out.append(members);
            out.append("]");
            assert(out@ =~= line_label_with(self@, members@));
            out
        } else {
            let mut out = self.name.clone();
            out.append(" ");
            out.append(self.status.to_icon());
            assert(out@ =~= line_label_with(self@, members@));
            out
        }
    }

    /// The line of the task in a tree view.
    pub fn to_string(&self) -> (r: String)
        ensures
            r@ == line_label(self@),
    {
        let members = trim_end(self.spaced_members().as_str());
        self.line_with(members.as_str())
    }
}

/// One edge of the graph: from a task to one of its children.
pub open spec fn dot_edge(a: TaskView, b: TaskView) -> Seq<char> {
    "\t\""@ + dot_label(a) + "\" -> \""@ + dot_label(b) + "\"\n"@
}

/// The edges below the first `n` children of `k`, depth first: for each
/// child the edge that leads to it, then the edges below it.
pub open spec fn dot_below(m: Tree, k: Seq<u32>, n: nat, bound: nat) -> Seq<char>
    decreases bound - k.len(), n,
{
    if n == 0 || k.len() >= bound {
        Seq::<char>::empty()
    } else {
        let c = k.push(n as u32);
        dot_below(m, k, (n - 1) as nat, bound) + dot_edge(m[k], m[c]) + dot_below(
            m,
            c,
            m[c].num_children as nat,
            bound,
        )
    }
}

/// The five figures that head the graph.
pub open spec fn dot_stats(m: Tree) -> Seq<char> {
    "earned value: "@ + ratio_text(earned_value_of(m)) + ", spi: "@ + ratio_text(spi_of(m))
        + ", sv: "@ + ratio_text(sv_of(m)) + ", cpi: "@ + ratio_text(cpi_of(m)) + ", cv: "@
        + ratio_text(cv_of(m))
}

/// The project as a graph in the DOT language: the figures as its label,
/// then one edge from each task to each of its children, depth first.
pub open spec fn dot_text(m: Tree) -> Seq<char> {
    "digraph G {\nlabel=\""@ + dot_stats(m) + "\"\n"@ + dot_below(
        m,
        Seq::<u32>::empty(),
        m[Seq::<u32>::empty()].num_children as nat,
        tree_depth(m),
    ) + "}"@
}

/// Whether a task stands behind `c` among its siblings.
pub open spec fn has_next(m: Tree, c: Seq<u32>) -> bool {
    c.len() > 0 && c.last() < u32::MAX && m.contains_key(
        c.drop_last().push((c.last() + 1) as u32),
    )
}

/// What joins a child to the tree: a tee where siblings follow, else a
/// corner.
pub open spec fn connector(more: bool) -> Seq<char> {
    if more {
        "\u{251c}\u{2500} "@
    } else {
        "\u{2514}\u{2500} "@
    }
}

/// What stands before the lines below a child: a bar where siblings
/// follow, else blanks.
pub open spec fn indent(more: bool) -> Seq<char> {
    if more {
        "\u{2502}  "@
    } else {
        "   "@
    }
}

/// The lines below the first `n` children of `k`, depth first: for each
/// child its own line behind `prefix` and a connector, then the lines
/// below it, indented further.
pub open spec fn tree_below(m: Tree, k: Seq<u32>, n: nat, prefix: Seq<char>, bound: nat) -> Seq<
    char,
>
    decreases bound - k.len(), n,
{
    if n == 0 || k.len() >= bound {
        Seq::<char>::empty()
    } else {
        let c = k.push(n as u32);
        let more = has_next(m, c);
        tree_below(m, k, (n - 1) as nat, prefix, bound) + prefix + connector(more) + line_label(
            m[c],
        ) + "\n"@ + tree_below(m, c, m[c].num_children as nat, prefix + indent(more), bound)
    }
}

/// The project as an indented tree: the root's line, then the lines of
/// all tasks below it, depth first.
pub open spec fn tree_text(m: Tree) -> Seq<char> {
    line_label(m[Seq::<u32>::empty()]) + "\n"@ + tree_below(
        m,
        Seq::<u32>::empty(),
        m[Seq::<u32>::empty()].num_children as nat,
        Seq::<char>::empty(),
        tree_depth(m),
    )
}

/// The edges do not depend on the bound, as long as no id is longer.
pub proof fn lemma_dot_below_any_bound(m: Tree, k: Seq<u32>, n: nat, b1: nat, b2: nat)
    requires
        well_shaped(m),
        m.contains_key(k),
        n <= m[k].num_children,
        fits(m, b1),
        fits(m, b2),
    ensures
        dot_below(m, k, n, b1) == dot_below(m, k, n, b2),
    decreases b1 - k.len(), n,
{
    if n > 0 {
        let c = k.push(n as u32);
        assert(children_present(m, k));
        assert(m.contains_key(c));
        lemma_dot_below_any_bound(m, k, (n - 1) as nat, b1, b2);
        lemma_dot_below_any_bound(m, c, m[c].num_children as nat, b1, b2);
    }
}

/// The lines do not depend on the bound, as long as no id is longer.
pub proof fn lemma_tree_below_any_bound(
    m: Tree,
    k: Seq<u32>,
    n: nat,
    prefix: Seq<char>,
    b1: nat,
    b2: nat,
)
    requires
        well_shaped(m),
        m.contains_key(k),
        n <= m[k].num_children,
        fits(m, b1),
        fits(m, b2),
    ensures
        tree_below(m, k, n, prefix, b1) == tree_below(m, k, n, prefix, b2),
    decreases b1 - k.len(), n,
{
    if n > 0 {
        let c = k.push(n as u32);
        assert(children_present(m, k));
        assert(m.contains_key(c));
        lemma_tree_below_any_bound(m, k, (n - 1) as nat, prefix, b1, b2);
        lemma_tree_below_any_bound(
            m,
            c,
            m[c].num_children as nat,
            prefix + indent(has_next(m, c)),
            b1,
            b2,
        );
    }
}

impl Tasks {
    /// The edges below the task `root_id`, depth first.
    fn subtasks_to_dot_str(&self, root_id: &TaskId, Ghost(bound): Ghost<nat>) -> (r: String)
        requires
            self.wf(),
            self@.contains_key(root_id@),
            fits(self@, bound),
        ensures
            r@ == dot_below(self@, root_id@, self@[root_id@].num_children as nat, bound),
        decreases bound - root_id@.len(),
    {
        let mut s = String::new();
        let root = self.at(root_id);
        let root_str = root.to_dot_str();
        let n = root.num_children();
        let mut t: u32 = 0;
        while t < n
            invariant
                self.wf(),
                self@.contains_key(root_id@),
                fits(self@, bound),
                n == self@[root_id@].num_children,
                root_str@ == dot_label(self@[root_id@]),
                t <= n,
                s@ == dot_below(self@, root_id@, t as nat, bound),
            decreases n - t,
        {
            t = t + 1;
            let child_id = root_id.new_child_id(t);
            proof {
                assert(children_present(self@, root_id@));
                assert(self@.contains_key(root_id@.push(t)));
            }
            let child = self.at(&child_id);
            let ghost before = s@;
            s.append("\t\"");
            s.append(root_str.as_str());
            s.append("\" -> \"");
            s.append(child.to_dot_str().as_str());
            s.append("\"\n");
            assert(s@ =~= before + dot_edge(self@[root_id@], self@[child_id@]));
            let below = self.subtasks_to_dot_str(&child_id, Ghost(bound));
            s.append(below.as_str());
        }
        s
    }

    /// The project as a graph in the DOT language: the five figures as
    /// its label, then one edge from each task to each of its children,
    /// depth first.
    pub fn to_dot_str(&self) -> (r: String)
        requires
            self.wf(),
        ensures
            r@ == dot_text(self@),
    {
        let ghost bound = self.depth();
        proof {
            self.lemma_depth();
            assert(fits(self@, bound));
            lemma_dot_below_any_bound(
                self@,
                Seq::<u32>::empty(),
                self@[Seq::<u32>::empty()].num_children as nat,
                bound,
                tree_depth(self@),
            );
        }
        let mut s = String::new();
        s.append("digraph G {\nlabel=\"");
        s.append("earned value: ");
        push_ratio(&mut s, self.earned_value());
        s.append(", spi: ");
        push_ratio(&mut s, self.spi());
        s.append(", sv: ");
        push_ratio(&mut s, self.sv());
        s.append(", cpi: ");
        push_ratio(&mut s, self.cpi());
        s.append(", cv: ");
        push_ratio(&mut s, self.cv());
        assert(s@ =~= "digraph G {\nlabel=\""@ + dot_stats(self@));
        s.append("\"\n");
        let root_id = TaskId::get_root_id();
        let edges = self.subtasks_to_dot_str(&root_id, Ghost(bound));
        s.append(edges.as_str());
        s.append("}");
        s
    }

    /// The lines below the task `root_id`, depth first, each behind
    /// `prefix`.
    fn subtasks_to_tree_str(&self, root_id: &TaskId, prefix: &str, Ghost(bound): Ghost<nat>) -> (r:
        String)
        requires
            self.wf(),
            self@.contains_key(root_id@),
            fits(self@, bound),
        ensures
            r@ == tree_below(
                self@,
                root_id@,
                self@[root_id@].num_children as nat,
                prefix@,
                bound,
            ),
        decreases bound - root_id@.len(),
    {
        let mut s = String::new();
        let root = self.at(root_id);
        let n = root.num_children();
        let mut t: u32 = 0;
        while t < n
            invariant
                self.wf(),
                self@.contains_key(root_id@),
                fits(self@, bound),
                n == self@[root_id@].num_children,
                t <= n,
                s@ == tree_below(self@, root_id@, t as nat, prefix@, bound),
            decreases n - t,
        {
            t = t + 1;
            let child_id = root_id.new_child_id(t);
            proof {
                assert(children_present(self@, root_id@));
                assert(self@.contains_key(root_id@.push(t)));
                assert(child_id@.drop_last() =~= root_id@);
            }
            let child = self.at(&child_id);
            let ghost before = s@;
            let more = self.next_sibling(&child_id).is_ok();
            assert(more == has_next(self@, child_id@));
            let mut deeper = prefix.to_owned();
            s.append(prefix);
            if more {
                s.append("\u{251c}\u{2500} ");
                deeper.append("\u{2502}  ");
            } else {
                s.append("\u{2514}\u{2500} ");
                deeper.append("   ");
            }
            s.append(child.to_string().as_str());
            s.append("\n");
            assert(s@ =~= before + prefix@ + connector(more) + line_label(self@[child_id@])
                + "\n"@);
            let below = self.subtasks_to_tree_str(&child_id, deeper.as_str(), Ghost(bound));
            s.append(below.as_str());
        }
        s
    }

    /// The project as an indented tree: the root's line, then the lines
    /// of all tasks below it, depth first, the last child of each task
    /// joined by a corner and the others by a tee.
    pub fn to_tree_str(&self) -> (r: String)
        requires
            self.wf(),
        ensures
            r@ == tree_text(self@),
    {
        let ghost bound = self.depth();
        proof {
            self.lemma_depth();
            assert(fits(self@, bound));
            lemma_tree_below_any_bound(
                self@,
                Seq::<u32>::empty(),
                self@[Seq::<u32>::empty()].num_children as nat,
                Seq::<char>::empty(),
                bound,
                tree_depth(self@),
            );
        }
        let root_id = TaskId::get_root_id();
        let mut s = self.at(&root_id).to_string();
        s.append("\n");
        let prefix = String::new();
        let below = self.subtasks_to_tree_str(&root_id, prefix.as_str(), Ghost(bound));
        s.append(below.as_str());
        s
    }
}

} // verus!
