use todo_app::engine::{execute, next_id, Command, EngineResult};
use todo_app::persist::{decode_store, encode_store, PersistenceError};
use todo_app::task::{Priority, Task};
use todo_app::validate::handle_date;

fn task(title: &str, descr: &str, priority: Priority, date: &str) -> Task {
    Task {
        id: 0,
        title: title.to_string(),
        description: descr.to_string(),
        done: false,
        priority,
        due_date: handle_date(date).unwrap(),
    }
}

#[test]
fn add_assigns_increasing_ids_from_one() {
    let mut tasks: Vec<Task> = Vec::new();
    assert_eq!(next_id(&tasks), 1);
    for expected in 1..=4u128 {
        let r = execute(
            Command::AddTask(task("t", "d", Priority::Low, "01-01-2030")),
            &mut tasks,
        );
        assert_eq!(r, EngineResult::Applied);
        assert_eq!(tasks.last().unwrap().id, expected);
    }
    let ids: Vec<u128> = tasks.iter().map(|t| t.id).collect();
    assert_eq!(ids, vec![1, 2, 3, 4]);
}

#[test]
fn add_after_remove_does_not_reuse_a_middle_id() {
    let mut tasks: Vec<Task> = Vec::new();
    for _ in 0..3 {
        execute(
            Command::AddTask(task("t", "d", Priority::Low, "01-01-2030")),
            &mut tasks,
        );
    }
    assert_eq!(execute(Command::RemoveTask(2), &mut tasks), EngineResult::Applied);
    execute(
        Command::AddTask(task("t", "d", Priority::Low, "01-01-2030")),
        &mut tasks,
    );
    let mut ids: Vec<u128> = tasks.iter().map(|t| t.id).collect();
    ids.sort();
    assert_eq!(ids, vec![1, 3, 4]);
}

#[test]
fn remove_twice_reports_not_found() {
    let mut tasks: Vec<Task> = Vec::new();
    execute(
        Command::AddTask(task("a", "", Priority::Low, "01-01-2030")),
        &mut tasks,
    );
    execute(
        Command::AddTask(task("b", "", Priority::Low, "01-01-2030")),
        &mut tasks,
    );
    assert_eq!(execute(Command::RemoveTask(1), &mut tasks), EngineResult::Applied);
    assert_eq!(
        execute(Command::RemoveTask(1), &mut tasks),
        EngineResult::NotFound(1)
    );
}

#[test]
fn remove_swaps_the_last_task_into_the_slot() {
    let mut tasks: Vec<Task> = Vec::new();
    for name in ["a", "b", "c"] {
        execute(
            Command::AddTask(task(name, "", Priority::Low, "01-01-2030")),
            &mut tasks,
        );
    }
    execute(Command::RemoveTask(1), &mut tasks);
    let titles: Vec<&str> = tasks.iter().map(|t| t.title.as_str()).collect();
    assert_eq!(titles, vec!["c", "b"]);
}

#[test]
fn mark_done_is_idempotent() {
    let mut tasks: Vec<Task> = Vec::new();
    execute(
        Command::AddTask(task("a", "", Priority::Low, "01-01-2030")),
        &mut tasks,
    );
    assert!(!tasks[0].done);
    assert_eq!(execute(Command::MarkAsDone(1), &mut tasks), EngineResult::Applied);
    assert!(tasks[0].done);
    assert_eq!(execute(Command::MarkAsDone(1), &mut tasks), EngineResult::Applied);
    assert!(tasks[0].done);
}

#[test]
fn mark_done_unknown_id_reports_not_found() {
    let mut tasks: Vec<Task> = Vec::new();
    assert_eq!(
        execute(Command::MarkAsDone(7), &mut tasks),
        EngineResult::NotFound(7)
    );
}

#[test]
fn change_priority_then_list_shows_it() {
    let mut tasks: Vec<Task> = Vec::new();
    execute(
        Command::AddTask(task("a", "", Priority::Low, "01-01-2030")),
        &mut tasks,
    );
    assert_eq!(
        execute(Command::ChangePriority(1, Priority::High), &mut tasks),
        EngineResult::Applied
    );
    let before = tasks.len();
    assert_eq!(execute(Command::ListTasks, &mut tasks), EngineResult::ReadOnly);
    assert_eq!(tasks.len(), before);
    assert_eq!(tasks[0].priority, Priority::High);
}

#[test]
fn change_priority_unknown_id_reports_not_found() {
    let mut tasks: Vec<Task> = Vec::new();
    assert_eq!(
        execute(Command::ChangePriority(9, Priority::Low), &mut tasks),
        EngineResult::NotFound(9)
    );
}

#[test]
fn end_to_end_add_then_list() {
    let mut tasks: Vec<Task> = Vec::new();
    let r = execute(
        Command::AddTask(task(
            "Finish project",
            "Complete the final tasks for the project",
            Priority::High,
            "22-12-2024",
        )),
        &mut tasks,
    );
    assert_eq!(r, EngineResult::Applied);
    assert_eq!(execute(Command::ListTasks, &mut tasks), EngineResult::ReadOnly);
    assert_eq!(tasks.len(), 1);
    assert_eq!(tasks[0].id, 1);
    assert_eq!(tasks[0].title, "Finish project");
    assert!(!tasks[0].done);
    assert_eq!(tasks[0].priority, Priority::High);
    assert_eq!(tasks[0].due_date, handle_date("22-12-2024").unwrap());
}

#[test]
fn encode_writes_the_documented_form() {
    let mut t = task("ab", "c d", Priority::High, "22-12-2024");
    t.id = 1;
    let text = encode_store(&vec![t]);
    assert_eq!(text, "1;0;high;22-12-2024;2;ab;3;c d\n");
}

#[test]
fn round_trip_preserves_every_field() {
    let mut tasks: Vec<Task> = Vec::new();
    execute(
        Command::AddTask(task(
            "Finish project;\nwith a tricky title",
            "lines\nand;separators",
            Priority::Medium,
            "29-02-2024",
        )),
        &mut tasks,
    );
    execute(
        Command::AddTask(task("", "", Priority::Low, "01-01-0000")),
        &mut tasks,
    );
    execute(Command::MarkAsDone(2), &mut tasks);
    let text = encode_store(&tasks);
    let back = decode_store(&text).unwrap();
    assert_eq!(back.len(), tasks.len());
    for (a, b) in tasks.iter().zip(back.iter()) {
        assert_eq!(a.id, b.id);
        assert_eq!(a.title, b.title);
        assert_eq!(a.description, b.description);
        assert_eq!(a.done, b.done);
        assert_eq!(a.priority, b.priority);
        assert_eq!(a.due_date, b.due_date);
    }
}

#[test]
fn empty_store_round_trips() {
    let text = encode_store(&Vec::new());
    assert_eq!(text, "");
    assert_eq!(decode_store("").unwrap().len(), 0);
}

#[test]
fn decode_rejects_garbage() {
    assert_eq!(decode_store("garbage").unwrap_err(), PersistenceError::Corrupt);
    assert_eq!(decode_store("1;0;high").unwrap_err(), PersistenceError::Corrupt);
    assert_eq!(decode_store("\n").unwrap_err(), PersistenceError::Corrupt);
}

#[test]
fn decode_rejects_a_truncated_record() {
    let mut t = task("ab", "cd", Priority::Low, "22-12-2024");
    t.id = 1;
    let text = encode_store(&vec![t]);
    let truncated = &text[..text.len() - 3];
    assert_eq!(decode_store(truncated).unwrap_err(), PersistenceError::Corrupt);
}

#[test]
fn decode_rejects_an_impossible_date() {
    assert_eq!(
        decode_store("1;0;low;31-02-2024;1;a;1;b\n").unwrap_err(),
        PersistenceError::Corrupt
    );
}

#[test]
fn decode_rejects_duplicate_ids() {
    let text = "1;0;low;22-12-2024;1;a;1;b\n1;1;high;23-12-2024;1;c;1;d\n";
    assert_eq!(decode_store(text).unwrap_err(), PersistenceError::Corrupt);
    let distinct = "1;0;low;22-12-2024;1;a;1;b\n2;1;high;23-12-2024;1;c;1;d\n";
    assert!(decode_store(distinct).is_ok());
}

#[test]
fn decode_accepts_leading_zeros_in_digit_runs() {
    let v = decode_store("007;1;medium;01-02-2003;0;;0;\n").unwrap();
    assert_eq!(v.len(), 1);
    assert_eq!(v[0].id, 7);
    assert!(v[0].done);
    assert_eq!(v[0].priority, Priority::Medium);
    assert_eq!(v[0].title, "");
    assert_eq!(v[0].description, "");
}
