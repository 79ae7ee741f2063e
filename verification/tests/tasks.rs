use aplan::error::Error;
use aplan::members::Members;
use aplan::task::{Task, TaskStatus};
use aplan::task_id::TaskId;
use aplan::tasks::Tasks;

/// Amounts are counted in thousandths.
fn amount(x: f64) -> u64 {
    (x * 1000.0).round() as u64
}

fn id(text: &str) -> TaskId {
    TaskId::parse(text).unwrap()
}

#[test]
fn tasks_tasks() {
    let mut tasks = Tasks::new("Project");
    let members = Members::new();

    let root = TaskId::get_root_id();
    let task_id_1 = TaskId::new(vec![1]);
    let task_id_2 = TaskId::new(vec![2]);
    let task_id_3 = TaskId::new(vec![3]);
    let task_id_1_1 = TaskId::new(vec![1, 1]);
    let task_id_2_1 = TaskId::new(vec![2, 1]);
    let task_id_2_2 = TaskId::new(vec![2, 2]);
    let task_id_3_1 = TaskId::new(vec![3, 1]);

    assert!(tasks.add_task(task_id_1.clone(), "Create WSB").is_err());
    assert_eq!(
        tasks.add_task(root.clone(), "Create WSB"),
        Ok(Task::new(TaskId::new(vec![1]), "Create WSB"))
    );
    assert_eq!(
        tasks.add_task(task_id_1.clone(), "Create Task struct"),
        Ok(Task::new(TaskId::new(vec![1, 1]), "Create Task struct"))
    );
    tasks
        .expand(&[
            ("", "Create CLI tool"),
            ("2", "Create argument parser"),
            ("2", "Create help menu"),
            ("", "Create GUI tool"),
            ("3", "Create plot visualizer"),
        ])
        .unwrap();
    assert_eq!(tasks.get(&task_id_1), Ok(&Task::new(TaskId::new(vec![1]), "Create WSB")));

    assert_eq!(
        tasks.get(&task_id_1_1),
        Ok(&Task::new(TaskId::new(vec![1, 1]), "Create Task struct"))
    );
    assert_eq!(tasks.set_planned_value(&task_id_1_1, amount(2.0)), Ok(()));
    assert_eq!(tasks.planned_value(), amount(2.0));
    assert_eq!(tasks.get(&task_id_1_1).unwrap().get_planned_value(), amount(2.0));
    assert_eq!(tasks.get(&task_id_1).unwrap().get_planned_value(), amount(2.0));

    assert_eq!(tasks.get(&task_id_2), Ok(&Task::new(TaskId::new(vec![2]), "Create CLI tool")));

    assert_eq!(
        tasks.get(&task_id_2_1),
        Ok(&Task::new(TaskId::new(vec![2, 1]), "Create argument parser"))
    );
    assert_eq!(tasks.set_planned_value(&task_id_2_1, amount(7.0)), Ok(()));
    assert_eq!(tasks.planned_value(), amount(9.0));
    assert_eq!(tasks.get(&task_id_2_1).unwrap().get_planned_value(), amount(7.0));
    assert_eq!(tasks.get(&task_id_2_2).unwrap().get_planned_value(), amount(0.0));
    assert_eq!(tasks.get(&task_id_2).unwrap().get_planned_value(), amount(7.0));

    assert_eq!(
        tasks.get(&task_id_2_2),
        Ok(&Task::new(TaskId::new(vec![2, 2]), "Create help menu"))
    );
    assert_eq!(tasks.set_planned_value(&task_id_2_2, amount(33.0)), Ok(()));
    assert_eq!(tasks.planned_value(), amount(42.0));
    assert_eq!(tasks.get(&task_id_2_1).unwrap().get_planned_value(), amount(7.0));
    assert_eq!(tasks.get(&task_id_2_2).unwrap().get_planned_value(), amount(33.0));
    assert_eq!(tasks.get(&task_id_2).unwrap().get_planned_value(), amount(40.0));

    assert_eq!(tasks.get(&task_id_3), Ok(&Task::new(TaskId::new(vec![3]), "Create GUI tool")));

    assert_eq!(
        tasks.get(&task_id_3_1),
        Ok(&Task::new(TaskId::new(vec![3, 1]), "Create plot visualizer"))
    );
    assert_eq!(tasks.set_planned_value(&task_id_3_1, amount(20.0)), Ok(()));
    assert_eq!(tasks.planned_value(), amount(62.0));
    assert_eq!(tasks.get(&task_id_3_1).unwrap().get_planned_value(), amount(20.0));
    assert_eq!(tasks.get(&task_id_3).unwrap().get_planned_value(), amount(20.0));
    assert_eq!(
        tasks.remove(&task_id_2_1, &members),
        Ok(Task::new(TaskId::new(vec![2, 1]), "Create argument parser"))
    );

    assert_eq!(tasks.planned_value(), amount(55.0));
    assert_eq!(
        tasks.get(&task_id_2_1),
        Ok(&Task::new(TaskId::new(vec![2, 1]), "Create help menu"))
    );
    assert_eq!(tasks.get(&task_id_2), Ok(&Task::new(TaskId::new(vec![2]), "Create CLI tool")));
    assert_eq!(tasks.get(&task_id_2).unwrap().get_planned_value(), amount(33.0));

    assert_eq!(
        tasks.remove(&task_id_2, &members),
        Err(Error::TrunkCannotBeRemoved(task_id_2.clone()))
    );
    assert_eq!(tasks.planned_value(), amount(55.0));
    assert_eq!(
        tasks.remove(&task_id_2_1, &members),
        Ok(Task::new(TaskId::new(vec![2, 1]), "Create help menu"))
    );
    assert_eq!(tasks.planned_value(), amount(22.0));
    assert_eq!(tasks.get(&task_id_2).unwrap().get_planned_value(), amount(0.0));
    assert_eq!(
        tasks.remove(&task_id_2, &members),
        Ok(Task::new(TaskId::new(vec![2]), "Create CLI tool"))
    );
    assert_eq!(tasks.planned_value(), amount(22.0));

    assert_eq!(tasks.get(&task_id_1), Ok(&Task::new(TaskId::new(vec![1]), "Create WSB")));
    assert_eq!(
        tasks.get(&task_id_1_1),
        Ok(&Task::new(TaskId::new(vec![1, 1]), "Create Task struct"))
    );
    assert_eq!(tasks.get(&task_id_2), Ok(&Task::new(TaskId::new(vec![2]), "Create GUI tool")));
    assert_eq!(
        tasks.get(&task_id_2_1),
        Ok(&Task::new(TaskId::new(vec![2, 1]), "Create plot visualizer"))
    );
    assert_eq!(tasks.get(&task_id_3), Err(Error::TaskNotFound(task_id_3.clone())));
    assert_eq!(tasks.get(&task_id_3_1), Err(Error::TaskNotFound(task_id_3_1.clone())));
    assert_eq!(tasks.get(&task_id_2_1).unwrap().get_planned_value(), amount(20.0));
    assert_eq!(tasks.get(&task_id_2_1).unwrap().status(), TaskStatus::InProgress);
    assert_eq!(tasks.len(), 5);
}

#[test]
fn build_and_query() {
    let mut tasks = Tasks::new("Project");
    let root = TaskId::get_root_id();
    assert_eq!(tasks.add_task(root.clone(), "Create WSB").unwrap().id(), &id("1"));
    assert_eq!(tasks.add_task(id("1"), "Create Task Tree").unwrap().id(), &id("1.1"));
    assert_eq!(tasks.add_task(id("1"), "CRUD").unwrap().id(), &id("1.2"));
    assert_eq!(tasks.add_task(id("1.2"), "Manage ac and pv").unwrap().id(), &id("1.2.1"));

    assert_eq!(tasks.set_planned_value(&id("1.2.1"), amount(5.6)), Ok(()));
    assert_eq!(tasks.get(&id("1.2.1")).unwrap().get_planned_value(), amount(5.6));
    assert_eq!(tasks.get(&id("1.2")).unwrap().get_planned_value(), amount(5.6));
    assert_eq!(tasks.get(&id("1")).unwrap().get_planned_value(), amount(5.6));

    assert_eq!(tasks.set_actual_cost(&id("1.1"), amount(0.4)), Ok(()));
    assert_eq!(tasks.get(&id("1.1")).unwrap().get_actual_cost(), amount(0.4));
    assert_eq!(tasks.get(&id("1")).unwrap().get_actual_cost(), amount(0.4));
    assert_eq!(tasks.get(&id("1.2")).unwrap().get_actual_cost(), amount(0.0));
    assert_eq!(tasks.get(&root).unwrap().get_actual_cost(), amount(0.4));
    assert_eq!(tasks.get(&root).unwrap().get_planned_value(), amount(5.6));
}

#[test]
fn removal_renumbering() {
    let mut tasks = Tasks::new("Project");
    let members = Members::new();
    let root = TaskId::get_root_id();
    tasks.add_task(root.clone(), "first").unwrap();
    tasks.add_task(root.clone(), "second").unwrap();
    tasks.add_task(id("2"), "A").unwrap();
    tasks.add_task(id("2"), "B").unwrap();
    tasks.set_planned_value(&id("2.1"), 40).unwrap();
    tasks.set_planned_value(&id("2.2"), 2).unwrap();
    tasks.set_actual_cost(&id("2.2"), 9).unwrap();
    assert_eq!(tasks.get(&id("2")).unwrap().get_planned_value(), 42);

    let removed = tasks.remove(&id("2.1"), &members).unwrap();
    assert_eq!(removed.name(), "A");
    assert_eq!(removed.id(), &id("2.1"));
    assert_eq!(removed.get_planned_value(), 0);

    let left = tasks.get(&id("2.1")).unwrap();
    assert_eq!(left.name(), "B");
    assert_eq!(left.id(), &id("2.1"));
    assert_eq!(left.get_planned_value(), 2);
    assert_eq!(left.get_actual_cost(), 9);
    assert_eq!(left.status(), TaskStatus::Done);
    assert_eq!(tasks.get(&id("2.2")), Err(Error::TaskNotFound(id("2.2"))));
    assert_eq!(tasks.get(&id("2")).unwrap().num_children(), 1);
    assert_eq!(tasks.get(&id("2")).unwrap().get_planned_value(), 2);
    assert_eq!(tasks.get(&root).unwrap().get_planned_value(), 2);
}

#[test]
fn removal_moves_whole_subtrees() {
    let mut tasks = Tasks::new("P");
    let members = Members::new();
    let root = TaskId::get_root_id();
    for (parent, name) in [
        ("", "a"),
        ("", "b"),
        ("", "c"),
        ("2", "b1"),
        ("2", "b2"),
        ("2.2", "b2x"),
        ("2.2", "b2y"),
        ("3", "c1"),
        ("3.1", "c1x"),
        ("2.2.2", "deep"),
    ] {
        tasks.add_task(id(parent), name).unwrap();
    }
    tasks.set_planned_value(&id("2.2.2.1"), 5).unwrap();
    tasks.set_planned_value(&id("3.1.1"), 7).unwrap();
    tasks.set_actual_cost(&id("2.1"), 3).unwrap();
    assert_eq!(tasks.len(), 11);

    assert_eq!(tasks.remove(&id("1"), &members).unwrap().name(), "a");
    assert_eq!(tasks.len(), 10);
    let expect = [
        ("1", "b", 2, 5, 3),
        ("1.1", "b1", 0, 0, 3),
        ("1.2", "b2", 2, 5, 0),
        ("1.2.1", "b2x", 0, 0, 0),
        ("1.2.2", "b2y", 1, 5, 0),
        ("1.2.2.1", "deep", 0, 5, 0),
        ("2", "c", 1, 7, 0),
        ("2.1", "c1", 1, 7, 0),
        ("2.1.1", "c1x", 0, 7, 0),
    ];
    for (key, name, children, pv, ac) in expect {
        let t = tasks.get(&id(key)).unwrap();
        assert_eq!(t.id(), &id(key));
        assert_eq!(t.name(), name);
        assert_eq!(t.num_children(), children);
        assert_eq!(t.get_planned_value(), pv);
        assert_eq!(t.get_actual_cost(), ac);
    }
    assert_eq!(tasks.get(&root).unwrap().num_children(), 2);
    assert_eq!(tasks.get(&root).unwrap().get_planned_value(), 12);
    for gone in ["3", "3.1", "3.1.1", "2.2", "2.2.2.1"] {
        assert_eq!(tasks.get(&id(gone)), Err(Error::TaskNotFound(id(gone))));
    }
}

#[test]
fn status_follows_the_leaves() {
    let mut tasks = Tasks::new("P");
    let members = Members::new();
    let root = TaskId::get_root_id();
    tasks.add_task(root.clone(), "a").unwrap();
    tasks.add_task(id("1"), "a1").unwrap();
    tasks.add_task(id("1"), "a2").unwrap();
    let status = |tasks: &Tasks, key: &str| tasks.get(&id(key)).unwrap().status();

    tasks.set_actual_cost(&id("1.1"), 4).unwrap();
    assert_eq!(status(&tasks, "1.1"), TaskStatus::Done);
    assert_eq!(status(&tasks, "1.2"), TaskStatus::InProgress);
    assert_eq!(status(&tasks, "1"), TaskStatus::InProgress);
    assert_eq!(status(&tasks, ""), TaskStatus::InProgress);

    tasks.set_actual_cost(&id("1.2"), 0).unwrap();
    assert_eq!(status(&tasks, "1.2"), TaskStatus::Done);
    assert_eq!(status(&tasks, "1"), TaskStatus::Done);
    assert_eq!(status(&tasks, ""), TaskStatus::Done);

    tasks.set_planned_value(&id("1.2"), 10).unwrap();
    assert_eq!(status(&tasks, "1"), TaskStatus::Done);

    tasks.add_task(id("1.1"), "late").unwrap();
    assert_eq!(status(&tasks, "1.1.1"), TaskStatus::InProgress);
    assert_eq!(status(&tasks, "1.1"), TaskStatus::InProgress);
    assert_eq!(status(&tasks, "1.2"), TaskStatus::Done);
    assert_eq!(status(&tasks, "1"), TaskStatus::InProgress);
    assert_eq!(status(&tasks, ""), TaskStatus::InProgress);

    // Removing the only unfinished child finishes the parent.
    tasks.remove(&id("1.1.1"), &members).unwrap();
    assert_eq!(status(&tasks, "1.1"), TaskStatus::Done);
    assert_eq!(status(&tasks, "1"), TaskStatus::Done);
    assert_eq!(status(&tasks, ""), TaskStatus::Done);
}

#[test]
fn trunks_are_protected() {
    let mut tasks = Tasks::new("P");
    let members = Members::new();
    let root = TaskId::get_root_id();
    tasks.add_task(root.clone(), "a").unwrap();
    tasks.add_task(id("1"), "a1").unwrap();
    tasks.set_planned_value(&id("1.1"), 3).unwrap();

    assert_eq!(tasks.remove(&id("1"), &members), Err(Error::TrunkCannotBeRemoved(id("1"))));
    assert_eq!(tasks.set_actual_cost(&id("1"), 5), Err(Error::TrunkCannotChangeCost(id("1"))));
    assert_eq!(tasks.set_planned_value(&id("1"), 5), Err(Error::TrunkCannotChangeValue(id("1"))));
    assert_eq!(tasks.remove(&root, &members), Err(Error::TrunkCannotBeRemoved(root.clone())));
    // The root is a task with children like any other.
    assert_eq!(tasks.set_actual_cost(&root, 5), Err(Error::TrunkCannotChangeCost(root.clone())));
    assert_eq!(
        tasks.set_planned_value(&root, 5),
        Err(Error::TrunkCannotChangeValue(root.clone()))
    );
    assert_eq!(tasks.planned_value(), 3);
    assert_eq!(tasks.actual_cost(), 0);
    assert_eq!(tasks.get(&root).unwrap().status(), TaskStatus::InProgress);
    assert_eq!(tasks.get(&id("1")).unwrap().get_planned_value(), 3);
    assert_eq!(tasks.get(&id("1")).unwrap().get_actual_cost(), 0);
    assert_eq!(tasks.len(), 3);
}

#[test]
fn errors_leave_the_store_alone() {
    let mut tasks = Tasks::new("P");
    let members = Members::new();
    let root = TaskId::get_root_id();
    // A root without children has no parent to carry an amount to.
    assert_eq!(tasks.remove(&root, &members), Err(Error::NoParent(root.clone())));
    assert_eq!(tasks.set_actual_cost(&root, 5), Err(Error::NoParent(root.clone())));
    assert_eq!(tasks.set_planned_value(&root, 5), Err(Error::NoParent(root.clone())));
    assert_eq!(tasks.planned_value(), 0);
    assert_eq!(tasks.actual_cost(), 0);
    assert_eq!(tasks.get(&root).unwrap().status(), TaskStatus::InProgress);
    let mut staffed = Members::new();
    staffed.insert("ann".to_string()).unwrap();
    staffed.assign_task_to_member(root.clone(), "ann", &tasks).unwrap();
    assert_eq!(tasks.remove(&root, &staffed), Err(Error::CannotRemoveAssignedTask(root.clone())));
    tasks.add_task(root.clone(), "a").unwrap();
    tasks.add_task(root.clone(), "b").unwrap();
    tasks.set_planned_value(&id("1"), u64::MAX - 1).unwrap();

    assert_eq!(tasks.set_planned_value(&id("2"), 2), Err(Error::AmountOverflow(id("2"))));
    assert_eq!(tasks.get(&id("2")).unwrap().get_planned_value(), 0);
    assert_eq!(tasks.get(&root).unwrap().get_planned_value(), u64::MAX - 1);
    assert_eq!(tasks.set_planned_value(&id("2"), 1), Ok(()));
    assert_eq!(tasks.get(&root).unwrap().get_planned_value(), u64::MAX);
    assert_eq!(tasks.set_planned_value(&id("1"), u64::MAX), Err(Error::AmountOverflow(id("1"))));
    assert_eq!(tasks.set_planned_value(&id("1"), 0), Ok(()));
    assert_eq!(tasks.get(&root).unwrap().get_planned_value(), 1);

    staffed.assign_task_to_member(id("2"), "ann", &tasks).unwrap();
    assert_eq!(tasks.remove(&id("2"), &staffed), Err(Error::CannotRemoveAssignedTask(id("2"))));
    assert_eq!(tasks.get(&id("2")).unwrap().get_planned_value(), 1);
    assert_eq!(tasks.get(&id("2")).unwrap().status(), TaskStatus::InProgress);
    assert_eq!(tasks.remove(&id("3"), &members), Err(Error::TaskNotFound(id("3"))));
    assert_eq!(tasks.set_actual_cost(&id("3"), 1), Err(Error::TaskNotFound(id("3"))));
    assert_eq!(tasks.set_planned_value(&id("1.1"), 1), Err(Error::TaskNotFound(id("1.1"))));
    assert_eq!(
        tasks.add_task(id("7"), "x").map(|t| t.name().to_string()),
        Err(Error::TaskNotFound(id("7")))
    );
    assert_eq!(tasks.len(), 3);
}

/// The sum of the planned values and of the actual costs of the children
/// of `key`.
fn sums(tasks: &Tasks, key: &str) -> (u64, u64) {
    let task = tasks.get(&id(key)).unwrap();
    let mut pv = 0;
    let mut ac = 0;
    for child in task.child_ids() {
        let c = tasks.get(&child).unwrap();
        pv += c.get_planned_value();
        ac += c.get_actual_cost();
    }
    (pv, ac)
}

fn rolls_up(tasks: &Tasks) -> bool {
    tasks.all().into_iter().all(|t| {
        t.is_leaf()
            || sums(tasks, &t.id().to_string()) == (t.get_planned_value(), t.get_actual_cost())
    })
}

#[test]
fn amounts_roll_up() {
    let mut tasks = Tasks::new("P");
    let members = Members::new();
    assert!(rolls_up(&tasks));
    tasks
        .expand(&[("", "a"), ("", "b"), ("1", "a1"), ("1", "a2"), ("1.2", "x"), ("1.2", "y")])
        .unwrap();
    assert!(rolls_up(&tasks));
    let steps: [(&str, u64, bool); 8] = [
        ("1.1", 10, false),
        ("1.2.1", 7, false),
        ("1.2.2", 5, true),
        ("2", 3, true),
        ("1.2.1", 2, false),
        ("1.1", 4, true),
        ("1.2.2", 0, true),
        ("2", 9, false),
    ];
    for (key, value, cost) in steps {
        if cost {
            tasks.set_actual_cost(&id(key), value).unwrap();
        } else {
            tasks.set_planned_value(&id(key), value).unwrap();
        }
        assert!(rolls_up(&tasks), "after {key}");
    }
    assert_eq!(tasks.get(&id("")).unwrap().get_planned_value(), 21);
    assert_eq!(tasks.get(&id("")).unwrap().get_actual_cost(), 7);
    assert_eq!(tasks.get(&id("1.2")).unwrap().get_planned_value(), 2);
    tasks.add_task(id("1.2"), "z").unwrap();
    assert!(rolls_up(&tasks));
    tasks.remove(&id("1.2.1"), &members).unwrap();
    assert!(rolls_up(&tasks));
    assert_eq!(tasks.get(&id("")).unwrap().get_planned_value(), 19);
    tasks.remove(&id("1.1"), &members).unwrap();
    assert!(rolls_up(&tasks));
    assert_eq!(tasks.get(&id("")).unwrap().get_actual_cost(), 3);
}

#[test]
fn a_leaf_keeps_its_own_amount_when_it_gets_a_child() {
    let mut tasks = Tasks::new("P");
    let members = Members::new();
    tasks.add_task(id(""), "a").unwrap();
    tasks.set_planned_value(&id("1"), 5).unwrap();
    tasks.add_task(id("1"), "late").unwrap();
    // The parent still holds what it held as a leaf, beyond its child.
    assert_eq!(tasks.get(&id("1")).unwrap().get_planned_value(), 5);
    assert_eq!(sums(&tasks, "1"), (0, 0));
    assert!(!rolls_up(&tasks));
    tasks.set_planned_value(&id("1.1"), 2).unwrap();
    assert_eq!(tasks.get(&id("1")).unwrap().get_planned_value(), 7);
    assert_eq!(tasks.get(&id("")).unwrap().get_planned_value(), 7);
    tasks.remove(&id("1.1"), &members).unwrap();
    assert_eq!(tasks.get(&id("1")).unwrap().get_planned_value(), 5);
    assert!(rolls_up(&tasks));
}
