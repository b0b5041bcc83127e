use chrono::NaiveDate;
use chrono::NaiveDateTime;
use loago::now;
use loago::Tasks;
use loago::Timestamp;

fn stamp(moment: NaiveDateTime) -> Timestamp {
    Timestamp::new(moment.and_utc().timestamp(), moment.and_utc().timestamp_subsec_nanos())
        .unwrap()
}

fn december() -> Timestamp {
    stamp(NaiveDate::from_ymd_opt(2023, 12, 20).unwrap().and_hms_opt(0, 0, 0).unwrap())
}

fn november(day: u32) -> Timestamp {
    stamp(NaiveDate::from_ymd_opt(2023, day, 20).unwrap().and_hms_opt(0, 0, 0).unwrap())
}

fn same_days() -> Tasks {
    let december = december();
    Tasks::from_entries(vec![
        (String::from("dust"), december),
        (String::from("vacuum"), december),
        (String::from("exercise"), december),
    ])
}

fn different_days() -> Tasks {
    Tasks::from_entries(vec![
        (String::from("dust"), november(1)),
        (String::from("vacuum"), november(2)),
        (String::from("exercise"), november(3)),
    ])
}

#[test]
fn update() {
    let mut tasks = same_days();
    tasks.update("dust");
    let dust_ago = now().elapsed_since(&tasks.get("dust").unwrap());
    assert_eq!(dust_ago.num_minutes(), 0);
}

#[test]
fn update_multiple() {
    let mut tasks = same_days();
    tasks.update_multiple(&["vacuum", "dust"]);
    let vacuum_ago = now().elapsed_since(&tasks.get("vacuum").unwrap());
    let dust_ago = now().elapsed_since(&tasks.get("dust").unwrap());
    let exercise_ago = now().elapsed_since(&tasks.get("exercise").unwrap());
    assert_eq!(vacuum_ago.num_minutes(), 0);
    assert_eq!(dust_ago.num_minutes(), 0);
    assert!(exercise_ago.num_days() > 0);
}

#[test]
fn remove() {
    let mut tasks = same_days();
    tasks.remove("vacuum");
    assert!(!tasks.contains("vacuum"))
}

#[test]
fn remove_multiple() {
    let mut tasks = same_days();
    tasks.remove_multiple(&["vacuum", "dust"]);
    assert!(!tasks.contains("vacuum"));
    assert!(!tasks.contains("dust"));
}

#[test]
fn keep() {
    let mut tasks = same_days();
    tasks.keep("vacuum");
    assert!(!tasks.contains("dust"));
    assert!(tasks.contains("vacuum"));
}

#[test]
fn keep_multiple() {
    let mut tasks = same_days();
    tasks.keep_multiple(&["dust", "vacuum"]);
    assert!(!tasks.contains("exercise"));
    assert!(tasks.contains("dust"));
    assert!(tasks.contains("vacuum"));
}

#[test]
fn output_days() {
    let tasks = same_days().output_days();
    let expected = now().elapsed_since(&december()).num_days().to_string();
    assert_eq!(tasks.entries().len(), 3);
    for (_, actual) in tasks.entries() {
        assert_eq!(*actual, expected);
    }
}

#[test]
fn output_display() {
    let tasks =
        different_days().output_when(december(), |duration| duration.num_days().to_string());
    let expected = String::from("exercise — 275\nvacuum   — 303\ndust     — 334\n");
    let actual = tasks.to_string();
    assert_eq!(expected, actual);
}

#[test]
fn update_adds_a_new_task_at_the_end() {
    let mut tasks = same_days();
    tasks.update("read");
    assert_eq!(tasks.len(), 4);
    assert!(tasks.contains("read"));
    let names: Vec<String> = tasks.into_persistable().into_iter().map(|pair| pair.0).collect();
    assert_eq!(names, vec!["dust", "vacuum", "exercise", "read"]);
}

#[test]
fn update_at_keeps_the_place_of_a_known_task() {
    let mut tasks = different_days();
    tasks.update_at("dust", december());
    assert_eq!(tasks.len(), 3);
    assert_eq!(tasks.get("dust"), Some(december()));
    assert_eq!(tasks.get("vacuum"), Some(november(2)));
    let names: Vec<String> = tasks.into_persistable().into_iter().map(|pair| pair.0).collect();
    assert_eq!(names, vec!["dust", "vacuum", "exercise"]);
}

#[test]
fn update_multiple_gives_one_moment_to_all() {
    let mut tasks = Tasks::new();
    tasks.update_multiple(&["x", "y"]);
    let x = tasks.get("x").unwrap();
    let y = tasks.get("y").unwrap();
    assert_eq!(x, y);
    let later = now();
    assert_eq!(later.elapsed_since(&x), later.elapsed_since(&y));
    let report = tasks.output_when(later, |span| {
        format!("{}:{}", span.num_seconds(), span.subsec_nanos())
    });
    assert_eq!(report.entries()[0].1, report.entries()[1].1);
}

#[test]
fn update_multiple_at_takes_a_name_twice() {
    let mut tasks = Tasks::new();
    tasks.update_multiple_at(&["x", "y", "x"], december());
    assert_eq!(tasks.len(), 2);
    assert_eq!(tasks.get("x"), Some(december()));
    assert_eq!(tasks.get("y"), Some(december()));
}

#[test]
fn remove_of_a_missing_task_changes_nothing() {
    let mut tasks = different_days();
    tasks.remove("missing");
    assert_eq!(tasks.len(), 3);
    assert_eq!(tasks.into_persistable(), different_days().into_persistable());
}

#[test]
fn remove_multiple_passes_over_missing_tasks() {
    let mut tasks = different_days();
    tasks.remove_multiple(&["missing", "vacuum", "vacuum"]);
    assert_eq!(tasks.len(), 2);
    assert!(tasks.contains("dust"));
    assert!(tasks.contains("exercise"));
}

#[test]
fn keep_of_a_missing_task_leaves_nothing() {
    let mut tasks = same_days();
    tasks.keep_multiple(&["ghost"]);
    assert_eq!(tasks.len(), 0);
    assert!(!tasks.contains("ghost"));
    let mut tasks = same_days();
    tasks.keep("ghost");
    assert_eq!(tasks.len(), 0);
}

#[test]
fn keep_of_no_task_leaves_nothing() {
    let mut tasks = same_days();
    tasks.keep_multiple(&[]);
    assert_eq!(tasks.len(), 0);
}

#[test]
fn keep_twice_keeps_what_both_name() {
    let mut twice = different_days();
    twice.keep_multiple(&["dust", "vacuum", "ghost"]);
    twice.keep_multiple(&["vacuum", "exercise"]);
    let mut once = different_days();
    once.keep_multiple(&["vacuum"]);
    assert_eq!(twice.into_persistable(), once.into_persistable());
}

#[test]
fn keep_multiple_keeps_the_order_of_the_store() {
    let mut tasks = different_days();
    tasks.keep_multiple(&["exercise", "dust"]);
    let names: Vec<String> = tasks.into_persistable().into_iter().map(|pair| pair.0).collect();
    assert_eq!(names, vec!["dust", "exercise"]);
}

#[test]
fn names_are_told_apart_by_case() {
    let mut tasks = Tasks::new();
    tasks.update_at("Dust", december());
    tasks.update_at("dust", november(1));
    assert_eq!(tasks.len(), 2);
    assert_eq!(tasks.get("Dust"), Some(december()));
    assert_eq!(tasks.get("dust"), Some(november(1)));
    assert_eq!(tasks.get("DUST"), None);
}

#[test]
fn from_entries_lets_the_later_entry_win() {
    let tasks = Tasks::from_entries(vec![
        (String::from("dust"), november(1)),
        (String::from("vacuum"), november(2)),
        (String::from("dust"), november(3)),
    ]);
    assert_eq!(tasks.len(), 2);
    assert_eq!(tasks.get("dust"), Some(november(3)));
    let names: Vec<String> = tasks.into_persistable().into_iter().map(|pair| pair.0).collect();
    assert_eq!(names, vec!["dust", "vacuum"]);
}

#[test]
fn clone_holds_the_same_entries() {
    let tasks = different_days();
    let copy = tasks.clone();
    assert_eq!(copy.into_persistable(), tasks.into_persistable());
}

#[test]
fn update_multiple_gives_one_moment_to_a_hundred() {
    let names: Vec<String> = (0..100).map(|number| format!("task {number}")).collect();
    let borrowed: Vec<&str> = names.iter().map(|name| name.as_str()).collect();
    let mut tasks = same_days();
    tasks.update_multiple(&borrowed);
    assert_eq!(tasks.len(), 103);
    let first = tasks.get("task 0").unwrap();
    for name in &names {
        assert_eq!(tasks.get(name), Some(first));
    }
    assert_eq!(tasks.get("dust"), Some(december()));
}
