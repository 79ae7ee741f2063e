//! The failures that the library reports.

use vstd::prelude::*;
use vstd::string::*;
use crate::task_id::{format_spec, TaskId};

verus! {

/// Why an operation was refused. An operation that returns an error has
/// changed nothing.
#[derive(Debug, PartialEq, Eq)]
pub enum Error {
    /// No task has this id.
    TaskNotFound(TaskId),
    /// The text is not the dotted notation of a task id.
    BadTaskIdString(String),
    /// A component of a task id was zero.
    BadTaskIdNum,
    /// No file of this name exists.
    FileNotFound(String),
    /// No member has this name.
    MemberNotFound(String),
    /// The file could not be opened.
    OpenFile(String),
    /// The file name has no stem.
    FilenameStem(String),
    /// The file could not be read.
    FileRead(String),
    /// The file could not be written.
    FileWrite(String),
    /// The member is not assigned to the task.
    CannotRemoveMemberFromTask(TaskId, String),
    /// A task with children cannot be removed.
    TrunkCannotBeRemoved(TaskId),
    /// The root has no parent.
    NoParent(TaskId),
    /// The root has no child index.
    NoChildIndex(TaskId),
    /// The actual cost of a task with children is the sum of theirs.
    TrunkCannotChangeCost(TaskId),
    /// The planned value of a task with children is the sum of theirs.
    TrunkCannotChangeValue(TaskId),
    /// Members are assigned to leaf tasks only.
    TrunkCannotAddMember(TaskId),
    /// Members are assigned to leaf tasks only.
    TrunkCannotRemoveMember(TaskId),
    /// A task that still has members assigned cannot be removed.
    CannotRemoveAssignedTask(TaskId),
    /// The text is not a stored project.
    ParseJsonContents(String),
    /// The project could not be written as text.
    ParseProjectContents,
    /// A command line argument was not understood.
    ParseCliArgument(String),
    /// The id has no next sibling.
    NoNextSibling(TaskId),
    /// The id has no previous sibling.
    NoPrevSibling(TaskId),
    /// The task already has as many children as an id component can count.
    TooManyChildren(TaskId),
    /// The change would take the project's total beyond the largest amount.
    AmountOverflow(TaskId),
}

/// What an error says.
pub open spec fn message(e: Error) -> Seq<char> {
    match e {
        Error::TaskNotFound(i) => "Task with id '"@ + format_spec(i@) + "' not found"@,
        Error::BadTaskIdString(s) => "'"@ + s@ + "' is not a valid TaskId string"@,
        Error::BadTaskIdNum => "0 is not a valid number in a TaskId"@,
        Error::FileNotFound(s) => "File '"@ + s@ + "' not found"@,
        Error::MemberNotFound(s) => "Member '"@ + s@ + "' not found"@,
        Error::OpenFile(s) => "Couldn't open file '"@ + s@ + "'"@,
        Error::FilenameStem(s) => "Couldn't get stem from filename '"@ + s@ + "'"@,
        Error::FileRead(s) => "Couldn't read file '"@ + s@ + "'"@,
        Error::FileWrite(s) => "Couldn't write to file '"@ + s@ + "'"@,
        Error::CannotRemoveMemberFromTask(i, s) => "Can't remove member '"@ + s@
            + "' from a task '"@ + format_spec(i@)
            + "', since it hasn't been assigned to them"@,
        Error::TrunkCannotBeRemoved(i) => "Trunk tasks like '"@ + format_spec(i@)
            + "' cannot be removed"@,
        Error::NoParent(i) => "Root task '"@ + format_spec(i@) + "' doesn't have a parent"@,
        Error::NoChildIndex(i) => "Root task '"@ + format_spec(i@)
            + "' doesn't have a child index"@,
        Error::TrunkCannotChangeCost(i) => "Can't change actual cost of trunk tasks like '"@
            + format_spec(i@) + "' directly"@,
        Error::TrunkCannotChangeValue(i) => "Can't change planned value of trunk tasks like '"@
            + format_spec(i@) + "' directly"@,
        Error::TrunkCannotAddMember(i) => "Can't add members to trunk tasks like '"@
            + format_spec(i@) + "' directly"@,
        Error::TrunkCannotRemoveMember(i) => "Can't remove members from trunk tasks like '"@
            + format_spec(i@) + "' directly"@,
        Error::CannotRemoveAssignedTask(i) => "Can't remove tasks with members assigned to it"@,
        Error::ParseJsonContents(s) => "Couldn't parse JSON to project: '"@ + s@ + "'"@,
        Error::ParseProjectContents => "Couldn't parse project to JSON"@,
        Error::ParseCliArgument(s) => "Couldn't parse CLI argument: '"@ + s@ + "'"@,
        Error::NoNextSibling(i) => "There is no next sibling for task with id: '"@ + format_spec(
            i@,
        ) + "'"@,
        Error::NoPrevSibling(i) => "There is no prev sibling for task with id: '"@ + format_spec(
            i@,
        ) + "'"@,
        Error::TooManyChildren(i) => "Task '"@ + format_spec(i@)
            + "' cannot have more children"@,
        Error::AmountOverflow(i) => "The amount for task '"@ + format_spec(i@)
            + "' takes the project's total beyond the largest amount"@,
    }
}

/// The text `inner` between two others.
fn framed(before: &str, inner: &str, after: &str) -> (r: String)
    ensures
        r@ == before@ + inner@ + after@,
{
    let mut out = before.to_owned();
    out.append(inner);
    out.append(after);
    out
}

impl Error {
    /// What the error says, for showing it to a user.
    pub fn to_string(&self) -> (r: String)
        ensures
            r@ == message(*self),
    {
        match self {
            Error::TaskNotFound(i) => framed(
                "Task with id '",
                i.to_string().as_str(),
                "' not found",
            ),
            Error::BadTaskIdString(s) => framed("'", s.as_str(), "' is not a valid TaskId string"),
            Error::BadTaskIdNum => "0 is not a valid number in a TaskId".to_owned(),
            Error::FileNotFound(s) => framed("File '", s.as_str(), "' not found"),
            Error::MemberNotFound(s) => framed("Member '", s.as_str(), "' not found"),
            Error::OpenFile(s) => framed("Couldn't open file '", s.as_str(), "'"),
            Error::FilenameStem(s) => framed("Couldn't get stem from filename '", s.as_str(), "'"),
            Error::FileRead(s) => framed("Couldn't read file '", s.as_str(), "'"),
            Error::FileWrite(s) => framed("Couldn't write to file '", s.as_str(), "'"),
            Error::CannotRemoveMemberFromTask(i, s) => {
                let mut out = framed("Can't remove member '", s.as_str(), "' from a task '");
                out.append(i.to_string().as_str());
                out.append("', since it hasn't been assigned to them");
                out
            },
            Error::TrunkCannotBeRemoved(i) => framed(
                "Trunk tasks like '",
                i.to_string().as_str(),
                "' cannot be removed",
            ),
            Error::NoParent(i) => framed(
                "Root task '",
                i.to_string().as_str(),
                "' doesn't have a parent",
            ),
            Error::NoChildIndex(i) => framed(
                "Root task '",
                i.to_string().as_str(),
                "' doesn't have a child index",
            ),
            Error::TrunkCannotChangeCost(i) => framed(
                "Can't change actual cost of trunk tasks like '",
                i.to_string().as_str(),
                "' directly",
            ),
            Error::TrunkCannotChangeValue(i) => framed(
                "Can't change planned value of trunk tasks like '",
                i.to_string().as_str(),
                "' directly",
            ),
            Error::TrunkCannotAddMember(i) => framed(
                "Can't add members to trunk tasks like '",
                i.to_string().as_str(),
                "' directly",
            ),
            Error::TrunkCannotRemoveMember(i) => framed(
                "Can't remove members from trunk tasks like '",
                i.to_string().as_str(),
                "' directly",
            ),
            Error::CannotRemoveAssignedTask(_) => "Can't remove tasks with members assigned to it".to_owned(),
            Error::ParseJsonContents(s) => framed(
                "Couldn't parse JSON to project: '",
                s.as_str(),
                "'",
            ),
            Error::ParseProjectContents => "Couldn't parse project to JSON".to_owned(),
            Error::ParseCliArgument(s) => framed("Couldn't parse CLI argument: '", s.as_str(), "'"),
            Error::NoNextSibling(i) => framed(
                "There is no next sibling for task with id: '",
                i.to_string().as_str(),
                "'",
            ),
            Error::NoPrevSibling(i) => framed(
                "There is no prev sibling for task with id: '",
                i.to_string().as_str(),
                "'",
            ),
            Error::TooManyChildren(i) => framed(
                "Task '",
                i.to_string().as_str(),
                "' cannot have more children",
            ),
            Error::AmountOverflow(i) => framed(
                "The amount for task '",
                i.to_string().as_str(),
                "' takes the project's total beyond the largest amount",
            ),
        }
    }
}

} // verus!
