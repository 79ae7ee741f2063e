use aplan::error::Error;
use aplan::members::{Member, Members};
use aplan::task_id::TaskId;
use aplan::tasks::Tasks;

fn id(text: &str) -> TaskId {
    TaskId::parse(text).unwrap()
}

fn project() -> Tasks {
    let mut tasks = Tasks::new("P");
    tasks.expand(&[("", "a"), ("", "b"), ("1", "a1"), ("1", "a2")]).unwrap();
    tasks
}

#[test]
fn member_holds_each_task_once() {
    let mut m = Member::new("ann");
    assert_eq!(m.name(), "ann");
    assert!(m.task_ids().is_empty());
    assert_eq!(m.to_string(), "ann - []");
    m.add_task(id("1.2"));
    m.add_task(id("2"));
    m.add_task(id("1.2"));
    assert_eq!(m.task_ids(), vec![&id("1.2"), &id("2")]);
    assert!(m.is_assigned_to(&id("2")));
    assert!(!m.is_assigned_to(&id("1")));
    assert_eq!(m.to_string(), "ann - [1.2 2]");
    assert_eq!(m.line_with("x "), "ann - [x ]");
    m.remove_task(&id("1.2"));
    m.remove_task(&id("7"));
    assert_eq!(m.task_ids(), vec![&id("2")]);
    m.add_task(id(""));
    assert_eq!(m.to_string(), "ann - [2]");
    let copy = m.clone();
    assert_eq!(copy.task_ids(), m.task_ids());
    assert_eq!(copy.name(), "ann");
}

#[test]
fn registry() {
    let tasks = project();
    let mut members = Members::new();
    assert_eq!(members.len(), 0);
    assert_eq!(members.get("ann").err(), Some(Error::MemberNotFound("ann".to_string())));
    assert_eq!(members.insert("ann".to_string()), Ok(()));
    assert_eq!(members.insert("bob".to_string()), Ok(()));
    assert_eq!(members.len(), 2);
    assert_eq!(members.get("bob").unwrap().name(), "bob");
    let mut names: Vec<String> = members.members().iter().map(|m| m.name().to_string()).collect();
    names.sort();
    assert_eq!(names, vec!["ann", "bob"]);

    assert_eq!(members.assign_task_to_member(id("1.1"), "ann", &tasks), Ok(()));
    assert_eq!(members.assign_task_to_member(id("2"), "ann", &tasks), Ok(()));
    assert_eq!(members.assign_task_to_member(id("2"), "bob", &tasks), Ok(()));
    assert_eq!(
        members.assign_task_to_member(id("1"), "ann", &tasks),
        Err(Error::TrunkCannotAddMember(id("1")))
    );
    assert_eq!(
        members.assign_task_to_member(id("9"), "ann", &tasks),
        Err(Error::TaskNotFound(id("9")))
    );
    assert_eq!(
        members.assign_task_to_member(id("2"), "cy", &tasks),
        Err(Error::MemberNotFound("cy".to_string()))
    );
    assert_eq!(members.get("ann").unwrap().to_string(), "ann - [1.1 2]");
    assert!(members.has_assignees(&id("2")));
    assert!(members.has_assignees(&id("1.1")));
    assert!(!members.has_assignees(&id("1.2")));

    assert_eq!(
        members.remove_member_from_task(&id("1.2"), "ann", &tasks),
        Err(Error::CannotRemoveMemberFromTask(id("1.2"), "ann".to_string()))
    );
    assert_eq!(
        members.remove_member_from_task(&id("1"), "ann", &tasks),
        Err(Error::TrunkCannotRemoveMember(id("1")))
    );
    assert_eq!(
        members.remove_member_from_task(&id("8"), "ann", &tasks),
        Err(Error::TaskNotFound(id("8")))
    );
    assert_eq!(
        members.remove_member_from_task(&id("2"), "cy", &tasks),
        Err(Error::MemberNotFound("cy".to_string()))
    );
    assert_eq!(members.remove_member_from_task(&id("2"), "bob", &tasks), Ok(()));
    assert!(members.get("bob").unwrap().task_ids().is_empty());

    // Inserting a name again starts that member afresh.
    assert_eq!(members.insert("bob".to_string()), Ok(()));
    assert_eq!(members.len(), 2);

    let gone = members.remove_member("ann", &tasks).unwrap();
    assert_eq!(gone.name(), "ann");
    assert!(gone.task_ids().is_empty());
    assert_eq!(members.len(), 1);
    assert_eq!(
        members.remove_member("ann", &tasks).err(),
        Some(Error::MemberNotFound("ann".to_string()))
    );
    assert_eq!(members.remove("bob").unwrap().name(), "bob");
    assert_eq!(members.remove("bob").err(), Some(Error::MemberNotFound("bob".to_string())));
    assert_eq!(members.len(), 0);
}

#[test]
fn removing_a_member_stops_at_a_task_that_is_gone() {
    let mut tasks = project();
    let mut members = Members::new();
    members.insert("ann".to_string()).unwrap();
    for key in ["1.1", "2", "1.2"] {
        members.assign_task_to_member(id(key), "ann", &tasks).unwrap();
    }
    // Task 2 becomes a trunk behind the registry's back.
    tasks.add_task(id("2"), "late").unwrap();
    assert_eq!(
        members.remove_member("ann", &tasks).err(),
        Some(Error::TrunkCannotRemoveMember(id("2")))
    );
    assert_eq!(members.get("ann").unwrap().task_ids(), vec![&id("2"), &id("1.2")]);
    assert_eq!(members.len(), 1);
}
