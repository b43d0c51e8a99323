use rust_shell::context::{Context, JobLine, TaskPoll, Variables};

fn words(v: &[&str]) -> Vec<String> {
    v.iter().map(|s| s.to_string()).collect()
}

#[test]
fn variables_set_then_get() {
    let mut v = Variables::new();
    assert_eq!(v.get("a"), None);
    v.set("a", "1");
    v.set("b", "2");
    assert_eq!(v.get("a"), Some(&"1".to_string()));
    v.set("a", "3");
    assert_eq!(v.get("a"), Some(&"3".to_string()));
    assert_eq!(v.get("b"), Some(&"2".to_string()));
    assert_eq!(v.get_k_v("b"), Some((&"b".to_string(), &"2".to_string())));
    assert_eq!(v.get_k_v("c"), None);
}

#[test]
fn set_var_follows_references() {
    let mut v = Variables::new();
    v.set_var("a", "hello");
    v.set_var("b", "$a");
    v.set_var("c", "$missing");
    v.set_var("d", "");
    assert_eq!(v.get("b"), Some(&"hello".to_string()));
    assert_eq!(v.get("c"), Some(&"".to_string()));
    assert_eq!(v.get("d"), Some(&"".to_string()));
}

#[test]
fn try_get_expands() {
    let mut v = Variables::new();
    v.set("a", "1");
    v.set("b", "2");
    assert_eq!(v.try_get("plain"), "plain");
    assert_eq!(v.try_get("x$a"), "x1");
    assert_eq!(v.try_get("$a$b"), "12");
    assert_eq!(v.try_get("p$a$$b"), "p12");
    assert_eq!(v.try_get("$zz"), "");
    assert_eq!(v.try_get("$"), "");
}

#[test]
fn add_task_numbers_and_markers() {
    let mut c = Context::new();
    assert_eq!(c.add_task(words(&["sleep", "1", "&"])), 1);
    assert_eq!(c.add_task(words(&["sleep", "2", "&"])), 2);
    assert_eq!(c.add_task(words(&["sleep", "3", "&"])), 3);
    let flags: Vec<char> = c.tasks.iter().map(|t| t.flush_flag).collect();
    assert_eq!(flags, vec![' ', '-', '+']);
    let ids: Vec<u32> = c.tasks.iter().map(|t| t.id).collect();
    assert_eq!(ids, vec![1, 2, 3]);
}

#[test]
fn update_tasks_reports_done_and_failed() {
    let mut c = Context::new();
    c.add_task(words(&["sleep", "1", "&"]));
    c.add_task(words(&["sleep", "2", "&"]));
    c.add_task(words(&["sleep", "3", "&"]));
    let lines = c.update_tasks(&vec![
        TaskPoll::Done,
        TaskPoll::Running,
        TaskPoll::Failed("boom".to_string()),
    ]);
    assert_eq!(
        lines,
        vec![
            JobLine::Stdout(format!("[1]  {:<24}sleep 1", "Done")),
            JobLine::Stderr("error checking tasks 3 sleep 3 &: boom".to_string()),
        ]
    );
    assert_eq!(c.tasks.len(), 1);
    assert_eq!(c.tasks[0].id, 2);
    assert_eq!(c.tasks[0].flush_flag, '+');
}

#[test]
fn list_tasks_reports_running() {
    let mut c = Context::new();
    c.add_task(words(&["sleep", "1", "&"]));
    c.add_task(words(&["sleep", "2", "&"]));
    let lines = c.list_tasks(&vec![TaskPoll::Running, TaskPoll::Running]);
    assert_eq!(
        lines,
        vec![
            JobLine::Stdout(format!("[1]- {:<24}sleep 1 &", "Running")),
            JobLine::Stdout(format!("[2]+ {:<24}sleep 2 &", "Running")),
        ]
    );
    assert_eq!(c.tasks.len(), 2);
}

#[test]
fn new_job_number_follows_highest() {
    let mut c = Context::new();
    c.add_task(words(&["a", "&"]));
    c.add_task(words(&["b", "&"]));
    c.update_tasks(&vec![TaskPoll::Running, TaskPoll::Done]);
    assert_eq!(c.add_task(words(&["c", "&"])), 2);
    c.update_tasks(&vec![TaskPoll::Done, TaskPoll::Running]);
    assert_eq!(c.add_task(words(&["d", "&"])), 3);
    let flags: Vec<char> = c.tasks.iter().map(|t| t.flush_flag).collect();
    assert_eq!(flags, vec!['-', '+']);
}

#[test]
fn markers_after_polling() {
    let mut c = Context::new();
    for i in 0..4 {
        c.add_task(words(&["job", &i.to_string(), "&"]));
    }
    c.update_tasks(&vec![TaskPoll::Running, TaskPoll::Running, TaskPoll::Running, TaskPoll::Done]);
    let flags: Vec<char> = c.tasks.iter().map(|t| t.flush_flag).collect();
    assert_eq!(flags, vec![' ', '-', '+']);
    let ids: Vec<u32> = c.tasks.iter().map(|t| t.id).collect();
    assert_eq!(ids, vec![1, 2, 3]);
}
