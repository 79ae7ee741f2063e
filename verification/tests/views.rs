use aplan::error::Error;
use aplan::metrics::Ratio;
use aplan::task::{Task, TaskStatus};
use aplan::task_id::TaskId;
use aplan::tasks::Tasks;

fn id(text: &str) -> TaskId {
    TaskId::parse(text).unwrap()
}

fn value(r: Ratio) -> f64 {
    let v = r.numerator as f64 / r.denominator as f64;
    if r.negative {
        -v
    } else {
        v
    }
}

fn sample() -> Tasks {
    let mut tasks = Tasks::new("Project");
    for (parent, name) in [("", "a"), ("", "b"), ("1", "a1"), ("1", "a2"), ("1.2", "deep")] {
        tasks.add_task(id(parent), name).unwrap();
    }
    tasks.set_planned_value(&id("1.1"), 30).unwrap();
    tasks.set_planned_value(&id("1.2.1"), 50).unwrap();
    tasks.set_planned_value(&id("2"), 20).unwrap();
    tasks.set_actual_cost(&id("1.1"), 45).unwrap();
    tasks
}

#[test]
fn task_create_task() {
    let task_id = TaskId::parse("1.1").unwrap();
    let task = Task::new(task_id.clone(), "Create Task Struct");
    assert_eq!(task.id(), &task_id);
}

#[test]
fn mod_create_task() {
    let task_id = TaskId::parse("1.1").unwrap();
    let task = Task::new(task_id.clone(), "Create Task Struct");
    assert_eq!(task.id(), &task_id);
    assert_eq!(task.name(), "Create Task Struct");
    assert_eq!(task.get_planned_value(), 0);
    assert_eq!(task.get_actual_cost(), 0);
    assert!(task.is_leaf());
    assert!(!task.is_trunk());
    assert_eq!(task.status(), TaskStatus::InProgress);
    assert!(task.child_ids().is_empty());
}

#[test]
fn zero_guard() {
    let tasks = Tasks::new("Project");
    assert_eq!(tasks.planned_value(), 0);
    assert_eq!(tasks.actual_cost(), 0);
    let zero = Ratio { negative: false, numerator: 0, denominator: 1 };
    assert_eq!(tasks.spi(), zero);
    assert_eq!(tasks.cpi(), zero);
    assert_eq!(value(tasks.spi()), 0.0);
    assert_eq!(value(tasks.cpi()), 0.0);
    assert_eq!(tasks.completion_percentage(), Ratio { negative: false, numerator: 0, denominator: 1 });
    assert_eq!(value(tasks.earned_value()), 0.0);
    assert_eq!(value(tasks.sv()), 0.0);
    assert_eq!(value(tasks.cv()), 0.0);
}

#[test]
fn earned_value_figures() {
    let tasks = sample();
    assert_eq!(tasks.name(), "Project");
    assert_eq!(tasks.planned_value(), 100);
    assert_eq!(tasks.actual_cost(), 45);
    // Three leaves, one of them done.
    assert_eq!(
        tasks.completion_percentage(),
        Ratio { negative: false, numerator: 1, denominator: 3 }
    );
    assert_eq!(tasks.earned_value(), Ratio { negative: false, numerator: 100, denominator: 3 });
    assert_eq!(tasks.spi(), Ratio { negative: false, numerator: 100, denominator: 300 });
    assert_eq!(tasks.sv(), Ratio { negative: true, numerator: 200, denominator: 3 });
    assert_eq!(tasks.cpi(), Ratio { negative: false, numerator: 100, denominator: 135 });
    assert_eq!(tasks.cv(), Ratio { negative: true, numerator: 35, denominator: 3 });
    assert!((value(tasks.sv()) + 66.666).abs() < 0.001);
}

#[test]
fn cost_index_without_cost_is_zero() {
    let mut tasks = Tasks::new("P");
    tasks.add_task(TaskId::get_root_id(), "a").unwrap();
    tasks.set_planned_value(&id("1"), 10).unwrap();
    tasks.set_actual_cost(&id("1"), 0).unwrap();
    assert_eq!(tasks.earned_value(), Ratio { negative: false, numerator: 10, denominator: 1 });
    assert_eq!(tasks.spi(), Ratio { negative: false, numerator: 10, denominator: 10 });
    assert_eq!(tasks.cpi(), Ratio { negative: false, numerator: 0, denominator: 1 });
    assert_eq!(tasks.cv(), Ratio { negative: false, numerator: 10, denominator: 1 });
    assert_eq!(tasks.sv(), Ratio { negative: false, numerator: 0, denominator: 1 });
}

#[test]
fn leaf_listings() {
    let tasks = sample();
    let names = |list: Vec<&Task>| {
        let mut names: Vec<String> = list.iter().map(|t| t.name().to_string()).collect();
        names.sort();
        names
    };
    assert_eq!(names(tasks.get_tasks()), vec!["a1", "b", "deep"]);
    assert_eq!(names(tasks.get_done_tasks()), vec!["a1"]);
    assert_eq!(names(tasks.get_todo_tasks()), vec!["b", "deep"]);
    assert_eq!(names(tasks.get_in_progress_tasks()), vec!["b", "deep"]);
    assert_eq!(names(Tasks::new("solo").get_tasks()), vec!["solo"]);
}

#[test]
fn siblings() {
    let tasks = sample();
    assert_eq!(tasks.next_sibling(&id("1")).unwrap().name(), "b");
    assert_eq!(tasks.prev_sibling(&id("2")).unwrap().name(), "a");
    assert_eq!(tasks.next_sibling(&id("1.1")).unwrap().name(), "a2");
    assert_eq!(tasks.next_sibling(&id("2")), Err(Error::NoNextSibling(id("2"))));
    assert_eq!(tasks.prev_sibling(&id("1")), Err(Error::NoPrevSibling(id("1"))));
    assert_eq!(tasks.next_sibling(&id("")), Err(Error::NoNextSibling(id(""))));
    assert_eq!(tasks.prev_sibling(&id("")), Err(Error::NoPrevSibling(id(""))));
    assert_eq!(tasks.prev_sibling(&id("7.3")), Err(Error::NoPrevSibling(id("7.3"))));

    assert_eq!(id("1.2").next_sibling(), Ok(id("1.3")));
    assert_eq!(id("1.2").prev_sibling(), Ok(id("1.1")));
    assert_eq!(id("1.1").prev_sibling(), Err(Error::NoPrevSibling(id("1.1"))));
    assert_eq!(
        TaskId::new(vec![u32::MAX]).next_sibling(),
        Err(Error::NoNextSibling(TaskId::new(vec![u32::MAX])))
    );
}

#[test]
fn id_algebra() {
    let t = id("1.2");
    assert_eq!(t.len(), 2);
    assert_eq!(t.child_idx(), Ok(2));
    assert_eq!(TaskId::get_root_id().child_idx(), Err(Error::NoChildIndex(TaskId::get_root_id())));
    assert_eq!(TaskId::get_root_id().parent(), Err(Error::NoParent(TaskId::get_root_id())));
    assert_eq!(t.new_child_id(7), id("1.2.7"));
    assert_eq!(t.child_ids(3), vec![id("1.2.1"), id("1.2.2"), id("1.2.3")]);
    assert_eq!(t.child_ids(0), Vec::<TaskId>::new());
    assert_eq!(id("3.1.4").path(), vec![id(""), id("3"), id("3.1"), id("3.1.4")]);
    assert_eq!(TaskId::get_root_id().path(), vec![id("")]);
    assert_eq!(id("3.1.4").to_vec(), vec![3, 1, 4]);
    let mut m = id("3.1.4");
    m.as_vec_mut()[1] = 9;
    assert_eq!(m, id("3.9.4"));
    assert_eq!(TaskId::get_root_id().to_string(), "");
    assert_eq!(TaskId::new(vec![10, 0, 4294967295]).to_string(), "10.0.4294967295");
    for text in ["", "1", "9.10.11", "4294967295.1", "100.200.300.400"] {
        assert_eq!(TaskId::parse(text).unwrap().to_string(), text);
    }
    for v in [vec![], vec![1], vec![7, 70, 700], vec![u32::MAX, 1]] {
        assert_eq!(TaskId::parse(&TaskId::new(v.clone()).to_string()).unwrap().as_vec(), &v);
    }
}

#[test]
fn members_on_tasks() {
    let mut tasks = sample();
    assert_eq!(tasks.assign_task_to_member(&id("1.2.1"), "ann"), Ok(()));
    assert_eq!(tasks.assign_task_to_member(&id("1.1"), "bob"), Ok(()));
    assert_eq!(tasks.assign_task_to_member(&id("1.1"), "bob"), Ok(()));
    assert!(tasks.get(&id("1.2.1")).unwrap().has_member("ann"));
    assert!(tasks.get(&id("1.2")).unwrap().has_member("ann"));
    assert!(tasks.get(&id("1")).unwrap().has_member("ann"));
    assert!(tasks.get(&id("")).unwrap().has_member("ann"));
    assert!(!tasks.get(&id("2")).unwrap().has_member("ann"));
    assert!(!tasks.get(&id("1.2")).unwrap().has_member("bob"));
    assert_eq!(tasks.get(&id("1")).unwrap().to_string(), "1 - a \u{2717} - [ann bob]");
    assert_eq!(
        tasks.assign_task_to_member(&id("1"), "ann"),
        Err(Error::TrunkCannotAddMember(id("1")))
    );
    assert_eq!(
        tasks.remove_member_from_task(&id("1"), "ann"),
        Err(Error::TrunkCannotRemoveMember(id("1")))
    );
    assert_eq!(
        tasks.remove_member_from_task(&id("2"), "ann"),
        Err(Error::CannotRemoveMemberFromTask(id("2"), "ann".to_string()))
    );
    assert_eq!(tasks.assign_task_to_member(&id("9"), "ann"), Err(Error::TaskNotFound(id("9"))));
    assert_eq!(tasks.remove_member_from_task(&id("9"), "ann"), Err(Error::TaskNotFound(id("9"))));
    assert_eq!(tasks.remove_member_from_task(&id("1.2.1"), "ann"), Ok(()));
    assert!(!tasks.get(&id("1")).unwrap().has_member("ann"));
    assert!(tasks.get(&id("1")).unwrap().has_member("bob"));
    assert_eq!(tasks.planned_value(), 100);

    let mut t = Task::new(id("4"), "t");
    t.add_member("x y ");
    t.add_member("z");
    t.add_member("x y ");
    assert_eq!(t.to_dot_str(), "4 - t \u{2717}\npv: 0 ac: 0\n[x y  z]");
    t.remove_member("z");
    assert!(!t.has_member("z"));
    assert_eq!(t.to_dot_str(), "4 - t \u{2717}\npv: 0 ac: 0\n[x y]");
    assert_eq!(t.dot_str_with("who ever "), "4 - t \u{2717}\npv: 0 ac: 0\n[who ever ]");
    assert_eq!(t.line_with(""), "4 - t \u{2717} - []");
}

#[test]
fn tree_text() {
    let tasks = sample();
    let expect = "Project \u{2717}\n\
\u{251c}\u{2500} 1 - a \u{2717} - []\n\
\u{2502}  \u{251c}\u{2500} 1.1 - a1 \u{2714} - []\n\
\u{2502}  \u{2514}\u{2500} 1.2 - a2 \u{2717} - []\n\
\u{2502}     \u{2514}\u{2500} 1.2.1 - deep \u{2717} - []\n\
\u{2514}\u{2500} 2 - b \u{2717} - []\n";
    assert_eq!(tasks.to_tree_str(), expect);
    assert_eq!(Tasks::new("solo").to_tree_str(), "solo \u{2717}\n");
}

#[test]
fn dot_text() {
    let tasks = sample();
    let root = " - Project \u{2717}\npv: 100 ac: 45\n[]";
    let a = "1 - a \u{2717}\npv: 80 ac: 45\n[]";
    let a1 = "1.1 - a1 \u{2714}\npv: 30 ac: 45\n[]";
    let a2 = "1.2 - a2 \u{2717}\npv: 50 ac: 0\n[]";
    let deep = "1.2.1 - deep \u{2717}\npv: 50 ac: 0\n[]";
    let b = "2 - b \u{2717}\npv: 20 ac: 0\n[]";
    let edge = |from: &str, to: &str| format!("\t\"{from}\" -> \"{to}\"\n");
    let expect = format!(
        "digraph G {{\nlabel=\"earned value: 100/3, spi: 100/300, sv: -200/3, cpi: 100/135, cv: -35/3\"\n{}{}{}{}{}}}",
        edge(root, a),
        edge(a, a1),
        edge(a, a2),
        edge(a2, deep),
        edge(root, b)
    );
    assert_eq!(tasks.to_dot_str(), expect);
    assert_eq!(tasks.get(&id("1.1")).unwrap().to_dot_str(), a1);
    assert_eq!(
        Tasks::new("solo").to_dot_str(),
        "digraph G {\nlabel=\"earned value: 0/1, spi: 0/1, sv: 0/1, cpi: 0/1, cv: 0/1\"\n}"
    );
    assert_eq!(TaskStatus::Done.to_icon(), "\u{2714}");
    assert_eq!(TaskStatus::InProgress.to_icon(), "\u{2717}");
    assert_eq!(TaskStatus::Done.to_string(), "Done");
    assert_eq!(TaskStatus::InProgress.to_string(), "InProgress");
}
