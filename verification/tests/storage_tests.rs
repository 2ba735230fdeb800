use event_calendar::command::Command;
use event_calendar::date::Date;
use event_calendar::storage::{ExecutionStatus, Storage};

fn date(s: &str) -> Date {
    let d = Date::parse(s).unwrap();
    d.validate().unwrap();
    d
}

fn add(store: &mut Storage, ds: &str, payload: &str) -> ExecutionStatus {
    store.execute(Command::Add(date(ds), payload.to_string()))
}

fn printed(store: &mut Storage) -> Vec<(String, Vec<String>)> {
    match store.execute(Command::Print) {
        ExecutionStatus::Printed(entries) => entries
            .into_iter()
            .map(|e| (e.date.format(), e.events))
            .collect(),
        _ => panic!("print must return a snapshot"),
    }
}

#[test]
fn print_lists_dates_in_ascending_order() {
    for order in [
        ["2023-12-31", "2024-01-01", "2024-01-02"],
        ["2024-01-02", "2023-12-31", "2024-01-01"],
        ["2024-01-01", "2024-01-02", "2023-12-31"],
    ] {
        let mut store = Storage::new();
        for ds in order {
            assert!(matches!(add(&mut store, ds, "e"), ExecutionStatus::Done));
        }
        let snapshot = printed(&mut store);
        let dates: Vec<String> = snapshot.iter().map(|(d, _)| d.clone()).collect();
        assert_eq!(dates, vec!["2023-12-31", "2024-01-01", "2024-01-02"]);
    }
}

#[test]
fn add_is_idempotent_on_membership() {
    let mut store = Storage::new();
    add(&mut store, "2024-01-01", "meeting");
    add(&mut store, "2024-01-01", "meeting");
    match store.execute(Command::Find(date("2024-01-01"))) {
        ExecutionStatus::Found(evs) => assert_eq!(evs, vec!["meeting".to_string()]),
        _ => panic!("date must be present"),
    }
}

#[test]
fn events_are_listed_sorted_and_deduplicated() {
    let mut store = Storage::new();
    add(&mut store, "2024-01-01", "standup");
    add(&mut store, "2024-01-01", "review");
    add(&mut store, "2024-01-01", "standup");
    add(&mut store, "2024-01-01", "lunch");
    match store.execute(Command::Find(date("2024-01-01"))) {
        ExecutionStatus::Found(evs) => {
            assert_eq!(evs, vec!["lunch".to_string(), "review".to_string(), "standup".to_string()])
        },
        _ => panic!("date must be present"),
    }
}

#[test]
fn delete_by_date_reports_count_and_drops_entry() {
    let mut store = Storage::new();
    add(&mut store, "2024-01-01", "a");
    add(&mut store, "2024-01-01", "b");
    add(&mut store, "2024-01-01", "c");
    add(&mut store, "2024-02-02", "d");
    let r = store.execute(Command::Delete(date("2024-01-01"), None));
    assert!(matches!(r, ExecutionStatus::Deleted(Some(3))));
    let snapshot = printed(&mut store);
    assert_eq!(snapshot.len(), 1);
    assert_eq!(snapshot[0].0, "2024-02-02");
}

#[test]
fn delete_by_date_on_absent_date_reports_no_date() {
    let mut store = Storage::new();
    add(&mut store, "2024-01-01", "a");
    let r = store.execute(Command::Delete(date("2024-01-02"), None));
    assert!(matches!(r, ExecutionStatus::NoDate));
}

#[test]
fn delete_by_event_keeps_empty_date_entry() {
    let mut store = Storage::new();
    add(&mut store, "2024-01-01", "only");
    let r = store.execute(Command::Delete(date("2024-01-01"), Some("only".to_string())));
    assert!(matches!(r, ExecutionStatus::Deleted(None)));
    // the date stays queryable, with an empty event set
    match store.execute(Command::Find(date("2024-01-01"))) {
        ExecutionStatus::Found(evs) => assert!(evs.is_empty()),
        _ => panic!("the date entry must remain"),
    }
    let snapshot = printed(&mut store);
    assert_eq!(snapshot.len(), 1);
    assert_eq!(snapshot[0].0, "2024-01-01");
    assert!(snapshot[0].1.is_empty());
}

#[test]
fn delete_by_event_reports_missing_event() {
    let mut store = Storage::new();
    add(&mut store, "2024-01-01", "a");
    let r = store.execute(Command::Delete(date("2024-01-01"), Some("b".to_string())));
    assert!(matches!(r, ExecutionStatus::NoEvent));
    let r = store.execute(Command::Delete(date("2024-01-02"), Some("a".to_string())));
    assert!(matches!(r, ExecutionStatus::NoDate));
}

#[test]
fn find_on_absent_date_answers_plain_done() {
    let mut store = Storage::new();
    add(&mut store, "2024-01-01", "a");
    let r = store.execute(Command::Find(date("2024-01-02")));
    assert!(matches!(r, ExecutionStatus::Done));
}

#[test]
fn end_to_end_command_session() {
    let mut store = Storage::new();
    let mut run = |line: &str| {
        let tokens = event_calendar::command::tokenize(line);
        let cmd = Command::parse(&tokens).unwrap();
        store.execute(cmd)
    };
    assert!(matches!(run("add 2024-03-05 standup"), ExecutionStatus::Done));
    assert!(matches!(run("add 2024-03-05 review"), ExecutionStatus::Done));
    match run("find 2024-03-05") {
        ExecutionStatus::Found(evs) => {
            assert_eq!(evs, vec!["review".to_string(), "standup".to_string()])
        },
        _ => panic!("date must be present"),
    }
    assert!(matches!(run("del 2024-03-05 standup"), ExecutionStatus::Deleted(None)));
    match run("find 2024-03-05") {
        ExecutionStatus::Found(evs) => assert_eq!(evs, vec!["review".to_string()]),
        _ => panic!("date must be present"),
    }
    assert!(matches!(run("del 2024-03-05"), ExecutionStatus::Deleted(Some(1))));
    assert!(matches!(run("find 2024-03-05"), ExecutionStatus::Done));
}
