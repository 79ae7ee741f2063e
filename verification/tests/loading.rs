use aplan::error::Error;
use aplan::members::{Member, Members};
use aplan::show::ShowFormat;
use aplan::task::{Task, TaskStatus};
use aplan::task_id::TaskId;
use aplan::tasks::Tasks;

fn id(text: &str) -> TaskId {
    TaskId::parse(text).unwrap()
}

fn record(key: &str, pv: u64, ac: u64, children: u32, status: TaskStatus) -> Task {
    Task::from_parts(id(key), key, pv, ac, children, status, Vec::new())
}

fn sound() -> Vec<Task> {
    vec![
        record("1.1", 4, 1, 0, TaskStatus::Done),
        record("", 10, 1, 2, TaskStatus::InProgress),
        record("2", 3, 0, 0, TaskStatus::InProgress),
        record("1", 7, 1, 2, TaskStatus::Done),
        record("1.2", 3, 0, 0, TaskStatus::Done),
    ]
}

#[test]
fn stored_projects_round_trip() {
    let mut tasks = Tasks::new("P");
    tasks.expand(&[("", "a"), ("", "b"), ("1", "a1"), ("1", "a2"), ("1.2", "x")]).unwrap();
    tasks.set_planned_value(&id("1.1"), 9).unwrap();
    tasks.set_actual_cost(&id("1.2.1"), 5).unwrap();
    tasks.assign_task_to_member(&id("2"), "ann").unwrap();
    let snapshot: Vec<Task> = tasks.all().into_iter().cloned().collect();
    assert_eq!(snapshot.len(), 6);

    let again = Tasks::from_tasks(snapshot).unwrap();
    assert_eq!(again.len(), 6);
    assert_eq!(again.to_tree_str(), tasks.to_tree_str());
    assert_eq!(again.to_dot_str(), tasks.to_dot_str());
    for t in tasks.all() {
        let other = again.get(t.id()).unwrap();
        assert_eq!(other.name(), t.name());
        assert_eq!(other.get_planned_value(), t.get_planned_value());
        assert_eq!(other.get_actual_cost(), t.get_actual_cost());
        assert_eq!(other.num_children(), t.num_children());
        assert_eq!(other.status(), t.status());
        assert_eq!(other.members_names(), t.members_names());
    }
}

#[test]
fn sound_records_load() {
    let mut tasks = Tasks::from_tasks(sound()).unwrap();
    assert_eq!(tasks.planned_value(), 10);
    assert_eq!(tasks.get(&id("1")).unwrap().status(), TaskStatus::Done);
    // A loaded project works like any other.
    tasks.set_actual_cost(&id("2"), 2).unwrap();
    assert_eq!(tasks.get(&id("")).unwrap().status(), TaskStatus::Done);
    assert_eq!(tasks.actual_cost(), 3);
}

#[test]
fn unsound_records_are_refused() {
    let with = |change: &dyn Fn(&mut Vec<Task>)| {
        let mut records = sound();
        change(&mut records);
        Tasks::from_tasks(records).is_none()
    };
    assert!(!with(&|_| {}));
    // The same id twice.
    assert!(with(&|r| r.push(record("2", 3, 0, 0, TaskStatus::InProgress))));
    // No root.
    assert!(with(&|r| {
        r.remove(1);
    }));
    assert!(Tasks::from_tasks(Vec::new()).is_none());
    // A child that its parent does not count.
    assert!(with(&|r| r.push(record("3", 0, 0, 0, TaskStatus::Done))));
    assert!(with(&|r| r.push(Task::from_parts(
        TaskId::new(vec![0]),
        "zero",
        0,
        0,
        0,
        TaskStatus::Done,
        Vec::new()
    ))));
    // A task without its parent.
    assert!(with(&|r| r.push(record("5.1", 0, 0, 0, TaskStatus::Done))));
    // A child that is counted but missing.
    assert!(with(&|r| {
        r.remove(4);
    }));
    assert!(with(&|r| r[2] = record("2", 3, 0, 1, TaskStatus::InProgress)));
    // A task that holds less than its children together.
    assert!(with(&|r| r[3] = record("1", 6, 1, 2, TaskStatus::Done)));
    assert!(with(&|r| r[1] = record("", 10, 0, 2, TaskStatus::InProgress)));
    // A status that does not follow from the children.
    assert!(with(&|r| r[3] = record("1", 7, 1, 2, TaskStatus::InProgress)));
    assert!(with(&|r| r[1] = record("", 10, 1, 2, TaskStatus::Done)));
    // More than the children together is fine.
    assert!(!with(&|r| r[1] = record("", 11, 9, 2, TaskStatus::InProgress)));
}

#[test]
fn registries_load() {
    let ann = Member::from_parts("ann", vec![id("1.1"), id("2")]);
    let bob = Member::from_parts("bob", vec![]);
    let members = Members::from_members(vec![ann.clone(), bob.clone()]).unwrap();
    assert_eq!(members.len(), 2);
    assert_eq!(members.get("ann").unwrap().to_string(), "ann - [1.1 2]");
    assert!(members.has_assignees(&id("2")));
    assert!(Members::from_members(vec![ann.clone(), bob, ann]).is_none());
    assert_eq!(Members::from_members(Vec::new()).unwrap().len(), 0);
}

#[test]
fn tasks_can_be_relabelled() {
    let mut t = record("1.2", 1, 2, 3, TaskStatus::Done);
    t.set_id(id("1.1"));
    assert_eq!(t.id(), &id("1.1"));
    assert_eq!(t.name(), "1.2");
    assert_eq!(t.get_planned_value(), 1);
    assert_eq!(t.get_actual_cost(), 2);
    assert_eq!(t.num_children(), 3);
    assert_eq!(t.child_ids(), vec![id("1.1.1"), id("1.1.2"), id("1.1.3")]);
    assert!(t.is_trunk());
}

#[test]
fn show_formats() {
    assert_eq!(ShowFormat::from_str("dot"), Ok(ShowFormat::Dot));
    assert_eq!(ShowFormat::from_str("DOT"), Ok(ShowFormat::Dot));
    assert_eq!(ShowFormat::from_str("Text"), Ok(ShowFormat::Text));
    assert_eq!(ShowFormat::from_str("txt"), Ok(ShowFormat::Text));
    assert_eq!(ShowFormat::from_str("TREE"), Ok(ShowFormat::Text));
    assert_eq!(ShowFormat::from_str("Graph"), Err(Error::ParseCliArgument("Graph".to_string())));
    assert_eq!(ShowFormat::from_str(""), Err(Error::ParseCliArgument(String::new())));
    assert_eq!(ShowFormat::from_word("dot"), Some(ShowFormat::Dot));
    assert_eq!(ShowFormat::from_word("Dot"), None);
    assert_eq!(ShowFormat::from_word("tree"), Some(ShowFormat::Text));
}

#[test]
fn error_messages() {
    let t = id("1.2");
    let s = "x".to_string();
    let cases = [
        (Error::TaskNotFound(t.clone()), "Task with id '1.2' not found"),
        (Error::BadTaskIdString(s.clone()), "'x' is not a valid TaskId string"),
        (Error::BadTaskIdNum, "0 is not a valid number in a TaskId"),
        (Error::FileNotFound(s.clone()), "File 'x' not found"),
        (Error::MemberNotFound(s.clone()), "Member 'x' not found"),
        (Error::OpenFile(s.clone()), "Couldn't open file 'x'"),
        (Error::FilenameStem(s.clone()), "Couldn't get stem from filename 'x'"),
        (Error::FileRead(s.clone()), "Couldn't read file 'x'"),
        (Error::FileWrite(s.clone()), "Couldn't write to file 'x'"),
        (
            Error::CannotRemoveMemberFromTask(t.clone(), s.clone()),
            "Can't remove member 'x' from a task '1.2', since it hasn't been assigned to them",
        ),
        (Error::TrunkCannotBeRemoved(t.clone()), "Trunk tasks like '1.2' cannot be removed"),
        (Error::NoParent(id("")), "Root task '' doesn't have a parent"),
        (Error::NoChildIndex(id("")), "Root task '' doesn't have a child index"),
        (
            Error::TrunkCannotChangeCost(t.clone()),
            "Can't change actual cost of trunk tasks like '1.2' directly",
        ),
        (
            Error::TrunkCannotChangeValue(t.clone()),
            "Can't change planned value of trunk tasks like '1.2' directly",
        ),
        (
            Error::TrunkCannotAddMember(t.clone()),
            "Can't add members to trunk tasks like '1.2' directly",
        ),
        (
            Error::TrunkCannotRemoveMember(t.clone()),
            "Can't remove members from trunk tasks like '1.2' directly",
        ),
        (
            Error::CannotRemoveAssignedTask(t.clone()),
            "Can't remove tasks with members assigned to it",
        ),
        (Error::ParseJsonContents(s.clone()), "Couldn't parse JSON to project: 'x'"),
        (Error::ParseProjectContents, "Couldn't parse project to JSON"),
        (Error::ParseCliArgument(s.clone()), "Couldn't parse CLI argument: 'x'"),
        (Error::NoNextSibling(t.clone()), "There is no next sibling for task with id: '1.2'"),
        (Error::NoPrevSibling(t.clone()), "There is no prev sibling for task with id: '1.2'"),
        (Error::TooManyChildren(t.clone()), "Task '1.2' cannot have more children"),
        (
            Error::AmountOverflow(t.clone()),
            "The amount for task '1.2' takes the project's total beyond the largest amount",
        ),
    ];
    for (e, text) in cases {
        assert_eq!(e.to_string(), text);
    }
}

#[test]
fn copies_are_independent() {
    let mut tasks = Tasks::new("P");
    tasks.expand(&[("", "a"), ("1", "a1")]).unwrap();
    let copy = tasks.clone();
    tasks.set_planned_value(&id("1.1"), 8).unwrap();
    assert_eq!(copy.planned_value(), 0);
    assert_eq!(tasks.planned_value(), 8);
    assert_eq!(copy.len(), 3);
    assert_eq!(copy.get(&id("1.1")).unwrap().name(), "a1");

    let mut members = Members::new();
    members.insert("ann".to_string()).unwrap();
    let kept = members.clone();
    members.remove("ann").unwrap();
    assert_eq!(kept.len(), 1);
    assert_eq!(members.len(), 0);
}
