use aplan::error::Error;
use aplan::task::Task;
use aplan::task_id::TaskId;
use aplan::tasks::Tasks;
use aplan::wsb::WSB;

/// Amounts are counted in thousandths.
fn amount(x: f64) -> u64 {
    (x * 1000.0).round() as u64
}

#[test]
fn wsb_tasks() {
    let mut wsb = WSB::new("Project");

    assert!(wsb.add_task("1", "Create WSB").is_none());
    assert_eq!(wsb.add_task("", "Create WSB"), Some(Task::new(TaskId::new(vec![1]), "Create WSB")));
    assert_eq!(
        wsb.add_task("1", "Create Task struct"),
        Some(Task::new(TaskId::new(vec![1, 1]), "Create Task struct"))
    );
    wsb.expand(&[
        ("", "Create CLI tool"),
        ("2", "Create argument parser"),
        ("2", "Create help menu"),
        ("", "Create GUI tool"),
        ("3", "Create plot visualizer"),
    ]);
    assert_eq!(wsb.get_task("1"), Some(&Task::new(TaskId::new(vec![1]), "Create WSB")));

    assert_eq!(
        wsb.get_task("1.1"),
        Some(&Task::new(TaskId::new(vec![1, 1]), "Create Task struct"))
    );
    assert_eq!(wsb.set_planned_value("1.1", amount(2.0)), Some(()));
    assert_eq!(wsb.planned_value(), amount(2.0));
    assert_eq!(wsb.get_task("1.1").unwrap().get_planned_value(), amount(2.0));
    assert_eq!(wsb.get_task("1").unwrap().get_planned_value(), amount(2.0));

    assert_eq!(wsb.get_task("2"), Some(&Task::new(TaskId::new(vec![2]), "Create CLI tool")));

    assert_eq!(
        wsb.get_task("2.1"),
        Some(&Task::new(TaskId::new(vec![2, 1]), "Create argument parser"))
    );
    assert_eq!(wsb.set_planned_value("2.1", amount(7.0)), Some(()));
    assert_eq!(wsb.planned_value(), amount(9.0));
    assert_eq!(wsb.get_task("2.1").unwrap().get_planned_value(), amount(7.0));
    assert_eq!(wsb.get_task("2.2").unwrap().get_planned_value(), amount(0.0));
    assert_eq!(wsb.get_task("2").unwrap().get_planned_value(), amount(7.0));

    assert_eq!(
        wsb.get_task("2.2"),
        Some(&Task::new(TaskId::new(vec![2, 2]), "Create help menu"))
    );
    assert_eq!(wsb.set_planned_value("2.2", amount(33.0)), Some(()));
    assert_eq!(wsb.planned_value(), amount(42.0));
    assert_eq!(wsb.get_task("2.1").unwrap().get_planned_value(), amount(7.0));
    assert_eq!(wsb.get_task("2.2").unwrap().get_planned_value(), amount(33.0));
    assert_eq!(wsb.get_task("2").unwrap().get_planned_value(), amount(40.0));

    assert_eq!(wsb.get_task("3"), Some(&Task::new(TaskId::new(vec![3]), "Create GUI tool")));

    assert_eq!(
        wsb.get_task("3.1"),
        Some(&Task::new(TaskId::new(vec![3, 1]), "Create plot visualizer"))
    );
    assert_eq!(wsb.set_planned_value("3.1", amount(20.0)), Some(()));
    assert_eq!(wsb.planned_value(), amount(62.0));
    assert_eq!(wsb.get_task("3.1").unwrap().get_planned_value(), amount(20.0));
    assert_eq!(wsb.get_task("3").unwrap().get_planned_value(), amount(20.0));
    assert_eq!(
        wsb.remove("2.1"),
        Some(Task::new(TaskId::new(vec![2, 1]), "Create argument parser"))
    );

    assert_eq!(wsb.planned_value(), amount(55.0));
    assert_eq!(
        wsb.get_task("2.1"),
        Some(&Task::new(TaskId::new(vec![2, 1]), "Create help menu"))
    );
    assert_eq!(wsb.get_task("2"), Some(&Task::new(TaskId::new(vec![2]), "Create CLI tool")));
    assert_eq!(wsb.get_task("2").unwrap().get_planned_value(), amount(33.0));

    assert_eq!(wsb.remove("2"), None);
    assert_eq!(wsb.planned_value(), amount(55.0));
    assert_eq!(
        wsb.remove("2.1"),
        Some(Task::new(TaskId::new(vec![2, 1]), "Create help menu"))
    );
    assert_eq!(wsb.planned_value(), amount(22.0));
    assert_eq!(wsb.get_task("2").unwrap().get_planned_value(), amount(0.0));
    assert_eq!(wsb.remove("2"), Some(Task::new(TaskId::new(vec![2]), "Create CLI tool")));
    assert_eq!(wsb.planned_value(), amount(22.0));

    assert_eq!(wsb.get_task("1"), Some(&Task::new(TaskId::new(vec![1]), "Create WSB")));
    assert_eq!(
        wsb.get_task("1.1"),
        Some(&Task::new(TaskId::new(vec![1, 1]), "Create Task struct"))
    );
    assert_eq!(wsb.get_task("2"), Some(&Task::new(TaskId::new(vec![2]), "Create GUI tool")));
    assert_eq!(
        wsb.get_task("2.1"),
        Some(&Task::new(TaskId::new(vec![2, 1]), "Create plot visualizer"))
    );
    assert_eq!(wsb.get_task("3"), None);
    assert_eq!(wsb.get_task("x"), None);
    assert_eq!(wsb.tasks().len(), 2);
    assert_eq!(wsb.done_tasks().len(), 0);
    assert_eq!(wsb.todo_tasks().len(), 2);
    assert_eq!(wsb.in_progress_tasks().len(), 2);
    assert_eq!(wsb.set_actual_cost("2.1", amount(1.5)), Some(()));
    assert_eq!(wsb.actual_cost(), amount(1.5));
    assert_eq!(wsb.done_tasks().len(), 1);
    assert_eq!(wsb.set_actual_cost("2", amount(1.5)), None);
    assert_eq!(wsb.set_actual_cost("2.", amount(1.5)), None);
    assert_eq!(wsb.set_planned_value("7", amount(1.5)), None);
    assert_eq!(wsb.actual_cost(), amount(1.5));
    assert!(wsb.to_dot_str().starts_with("digraph G {\nlabel=\"earned value: 22000/2, spi: "));
    assert_eq!(
        wsb.to_tree_str(),
        "Project \u{2717}\n\
\u{251c}\u{2500} 1 - Create WSB \u{2717} - []\n\
\u{2502}  \u{2514}\u{2500} 1.1 - Create Task struct \u{2717} - []\n\
\u{2514}\u{2500} 2 - Create GUI tool \u{2714} - []\n\
\u{20}  \u{2514}\u{2500} 2.1 - Create plot visualizer \u{2714} - []\n"
    );
    assert_eq!(wsb.completion_percentage().numerator, 1);
    assert_eq!(wsb.completion_percentage().denominator, 2);
    assert_eq!(wsb.earned_value().numerator, 22000);
    assert_eq!(wsb.spi().denominator, 44000);
    assert_eq!(wsb.cpi().denominator, 3000);
    assert!(wsb.sv().negative);
    assert!(!wsb.cv().negative);
}

#[test]
fn expand_stops_at_the_first_refusal() {
    let mut tasks = Tasks::new("P");
    assert_eq!(tasks.expand(&[("", "a"), ("1", "b"), ("1.1", "c")]), Ok(()));
    assert_eq!(tasks.len(), 4);
    assert_eq!(
        tasks.expand(&[("", "d"), ("3", "e"), ("", "f")]),
        Err(Error::TaskNotFound(TaskId::new(vec![3])))
    );
    assert_eq!(tasks.len(), 5);
    assert_eq!(tasks.get(&TaskId::new(vec![2])).unwrap().name(), "d");
    assert_eq!(
        tasks.expand(&[("1.", "g"), ("", "h")]),
        Err(Error::BadTaskIdString("1.".to_string()))
    );
    assert_eq!(tasks.len(), 5);
    assert_eq!(tasks.expand(&[]), Ok(()));

    let mut wsb = WSB::new("P");
    assert_eq!(wsb.expand(&[("", "a"), ("2", "b"), ("", "c")]), None);
    assert_eq!(wsb.tasks().len(), 1);
    assert_eq!(wsb.expand(&[("", "b"), ("2", "c")]), Some(()));
    assert_eq!(wsb.get_task("2.1").unwrap().name(), "c");
}
