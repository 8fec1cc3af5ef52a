use tracker::error::TrackerError;
use tracker::model::{Task, TimeEntry};
use tracker::payload::{validate_sync_payload, MAX_SYNC_RECORDS, MAX_TAGS, MAX_TEXT_CHARS};
use tracker::records::task_id;
use tracker::time::Timestamp;

const DEVICE: &str = "0b7a2c1e-3f4d-4e5a-9b6c-7d8e9f0a1b2c";
const ENTRY: &str = "5f0c6a1d-8e2b-4c3a-9d7e-1a2b3c4d5e6f";
const OTHER_ENTRY: &str = "6a1b2c3d-4e5f-4a6b-8c7d-9e0f1a2b3c4d";
const NOW: i64 = 1_700_000_000;

fn at(secs: i64) -> Timestamp {
    Timestamp::from_unix(secs, 0).unwrap()
}

fn task(name: &str) -> Task {
    Task {
        id: task_id(name),
        name: name.to_string(),
        project: Some("tracker".to_string()),
        tags: vec!["backend".to_string(), "rust".to_string()],
        created_at: at(NOW - 100),
        updated_at: at(NOW - 50),
        source_device: DEVICE.to_string(),
        deleted: false,
    }
}

fn entry(id: &str, task: &Task) -> TimeEntry {
    TimeEntry {
        id: id.to_string(),
        task_id: task.id.clone(),
        task_name: task.name.clone(),
        project: task.project.clone(),
        tags: task.tags.clone(),
        started_at: at(NOW - 40),
        stopped_at: Some(at(NOW - 20)),
        updated_at: at(NOW - 20),
        source_device: DEVICE.to_string(),
        deleted: false,
    }
}

fn refused(device: &str, tasks: &[Task], entries: &[TimeEntry]) -> bool {
    matches!(
        validate_sync_payload(device, tasks, entries, at(NOW)),
        Err(TrackerError::InvalidSyncPayload)
    )
}

#[test]
fn accepts_a_consistent_payload() {
    let t = task("Write tests");
    let e = entry(ENTRY, &t);
    assert!(validate_sync_payload(DEVICE, &[t.clone()], &[e], at(NOW)).is_ok());
    assert!(validate_sync_payload(DEVICE, &[], &[], at(NOW)).is_ok());
    let mut running = entry(OTHER_ENTRY, &t);
    running.stopped_at = None;
    assert!(validate_sync_payload(DEVICE, &[t], &[running], at(NOW)).is_ok());
}

#[test]
fn refuses_ids_that_are_not_uuids() {
    let t = task("Write tests");
    assert!(refused("device-a", &[t.clone()], &[]));
    assert!(refused(&DEVICE.to_uppercase(), &[t.clone()], &[]));
    let mut bad_entry = entry("entry-1", &t);
    assert!(refused(DEVICE, &[t.clone()], &[bad_entry.clone()]));
    bad_entry.id = ENTRY.to_string();
    bad_entry.source_device = "{0b7a2c1e-3f4d-4e5a-9b6c-7d8e9f0a1b2c}".to_string();
    assert!(refused(DEVICE, &[t], &[bad_entry]));
}

#[test]
fn refuses_task_ids_not_derived_from_names() {
    let mut t = task("Write tests");
    t.id = task_id("Chess Study");
    assert!(refused(DEVICE, &[t], &[]));
}

#[test]
fn refuses_control_characters_and_empty_or_long_texts() {
    let mut t = task("Write tests");
    t.project = Some("a\u{1b}[2Jb".to_string());
    assert!(refused(DEVICE, &[t.clone()], &[]));
    t.project = Some(String::new());
    assert!(refused(DEVICE, &[t.clone()], &[]));
    t.project = Some("x".repeat(MAX_TEXT_CHARS + 1));
    assert!(refused(DEVICE, &[t.clone()], &[]));
    t.project = Some("x".repeat(MAX_TEXT_CHARS));
    assert!(validate_sync_payload(DEVICE, &[t.clone()], &[], at(NOW)).is_ok());
    let mut e = entry(ENTRY, &t);
    e.task_name = "Write\u{7}tests".to_string();
    assert!(refused(DEVICE, &[t], &[e]));
}

#[test]
fn refuses_unsorted_repeated_or_too_many_tags() {
    let mut t = task("Write tests");
    t.tags = vec!["rust".to_string(), "backend".to_string()];
    assert!(refused(DEVICE, &[t.clone()], &[]));
    t.tags = vec!["rust".to_string(), "rust".to_string()];
    assert!(refused(DEVICE, &[t.clone()], &[]));
    t.tags = vec!["bad\ttag".to_string()];
    assert!(refused(DEVICE, &[t.clone()], &[]));
    let mut many: Vec<String> = (0..=MAX_TAGS).map(|i| format!("tag{i:03}")).collect();
    t.tags = many.clone();
    assert!(refused(DEVICE, &[t.clone()], &[]));
    many.pop();
    t.tags = many;
    assert!(validate_sync_payload(DEVICE, &[t], &[], at(NOW)).is_ok());
}

#[test]
fn refuses_inverted_timestamps() {
    let mut t = task("Write tests");
    t.created_at = at(NOW);
    t.updated_at = at(NOW - 1);
    assert!(refused(DEVICE, &[t], &[]));
    let t = task("Write tests");
    let mut e = entry(ENTRY, &t);
    e.stopped_at = Some(at(NOW - 41));
    assert!(refused(DEVICE, &[t.clone()], &[e]));
    let mut e = entry(ENTRY, &t);
    e.updated_at = at(NOW - 30);
    assert!(refused(DEVICE, &[t], &[e]));
}

#[test]
fn refuses_records_more_than_ten_minutes_ahead() {
    let mut t = task("Write tests");
    t.updated_at = at(NOW + 600);
    assert!(validate_sync_payload(DEVICE, &[t.clone()], &[], at(NOW)).is_ok());
    t.updated_at = Timestamp::from_unix(NOW + 600, 1).unwrap();
    assert!(refused(DEVICE, &[t], &[]));
    let t = task("Write tests");
    let mut e = entry(ENTRY, &t);
    e.started_at = at(NOW + 601);
    e.stopped_at = None;
    e.updated_at = at(NOW + 601);
    assert!(refused(DEVICE, &[t], &[e]));
}

#[test]
fn refuses_duplicate_ids_and_missing_tasks() {
    let t = task("Write tests");
    assert!(refused(DEVICE, &[t.clone(), t.clone()], &[]));
    let e = entry(ENTRY, &t);
    assert!(refused(DEVICE, &[t.clone()], &[e.clone(), e.clone()]));
    let other = task("Chess Study");
    let orphan = entry(OTHER_ENTRY, &other);
    assert!(refused(DEVICE, &[t.clone()], &[e.clone(), orphan.clone()]));
    assert!(validate_sync_payload(DEVICE, &[t, other], &[e, orphan], at(NOW)).is_ok());
}

#[test]
fn refuses_too_many_records() {
    let t = task("Write tests");
    let tasks = vec![t; MAX_SYNC_RECORDS + 1];
    assert!(refused(DEVICE, &tasks, &[]));
}
