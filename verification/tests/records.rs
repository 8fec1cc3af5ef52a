use std::collections::BTreeMap;
use tracker::error::TrackerError;
use tracker::merge::{is_newer, MergeRun};
use tracker::model::{MergeSummary, Task, TimeEntry};
use tracker::records::{
    cleaned_optional, cleaned_required, decode_tags, encode_tags, new_entry, normalized_tags,
    saved_task, start_plan, stopped_entries, task_id, StartPlan, TaskDraft,
};
use tracker::time::{format_time, Timestamp};

fn at(secs: i64) -> Timestamp {
    Timestamp::from_unix(secs, 0).unwrap()
}

fn strings(items: &[&str]) -> Vec<String> {
    items.iter().map(|s| s.to_string()).collect()
}

fn task(name: &str, updated: i64, device: &str) -> Task {
    Task {
        id: task_id(name),
        name: name.to_string(),
        project: None,
        tags: Vec::new(),
        created_at: at(updated),
        updated_at: at(updated),
        source_device: device.to_string(),
        deleted: false,
    }
}

#[test]
fn cleans_required_and_optional_values() {
    assert_eq!(cleaned_required("task name", "  Write tests \n").unwrap(), "Write tests");
    match cleaned_required("task name", " \t ") {
        Err(TrackerError::EmptyValue { label }) => assert_eq!(label, "task name"),
        _ => panic!("expected a refusal"),
    }
    assert_eq!(cleaned_optional(Some("  tracker ")), Some("tracker".to_string()));
    assert_eq!(cleaned_optional(Some("\u{3000}")), None);
    assert_eq!(cleaned_optional(None), None);
}

#[test]
fn normalizes_tags() {
    let tags = normalized_tags(&strings(&[" Rust", "backend", "RUST ", "", "  ", "Écrire"]));
    assert_eq!(tags, ["backend", "rust", "écrire"]);
    assert!(normalized_tags(&[]).is_empty());
}

#[test]
fn derives_task_ids_from_normalized_names() {
    assert_eq!(task_id("Write tests"), "15ac2f59-152b-55dc-bc19-3d8b35aebbf0");
    assert_eq!(task_id("  WRITE Tests "), "15ac2f59-152b-55dc-bc19-3d8b35aebbf0");
    assert_eq!(task_id("Chess Study"), "bd21db7e-be05-53d7-abd0-046b180c0ace");
}

#[test]
fn stores_tags_as_json() {
    let text = encode_tags(&strings(&["rust", "a\"b"])).unwrap();
    assert_eq!(text, r#"["rust","a\"b"]"#);
    assert_eq!(decode_tags(&text), ["rust", "a\"b"]);
    assert!(decode_tags("not json").is_empty());
}

#[test]
fn saves_new_and_existing_tasks() {
    let draft = TaskDraft::new(" Write tests ", Some(" tracker "), &strings(&["Rust"])).unwrap();
    let saved = saved_task(draft, None, at(100), "device-a".to_string());
    assert_eq!(saved.name, "Write tests");
    assert_eq!(saved.id, task_id("Write tests"));
    assert_eq!(saved.project.as_deref(), Some("tracker"));
    assert_eq!(saved.tags, ["rust"]);
    assert_eq!(saved.created_at, at(100));

    let draft = TaskDraft::new("write TESTS", None, &[]).unwrap();
    let updated = saved_task(draft, Some(saved.clone()), at(200), "device-b".to_string());
    assert_eq!(updated.id, saved.id);
    assert_eq!(updated.name, "Write tests");
    assert_eq!(updated.project, None);
    assert!(updated.tags.is_empty());
    assert_eq!(updated.created_at, at(100));
    assert_eq!(updated.updated_at, at(200));
    assert_eq!(updated.source_device, "device-b");
    assert!(matches!(TaskDraft::new("  ", None, &[]), Err(TrackerError::EmptyValue { .. })));
}

#[test]
fn prevents_two_active_entries() {
    let first = new_entry("e1".to_string(), task("First", 1, "d"), at(10), "d".to_string());
    assert!(start_plan(Some(&first), None, None, &[]).is_err());
}

#[test]
fn refuses_a_second_timer() {
    let first = new_entry("e1".to_string(), task("First", 1, "d"), at(10), "d".to_string());
    match start_plan(Some(&first), None, None, &[]) {
        Err(TrackerError::AlreadyTracking { task_name, started_at }) => {
            assert_eq!(task_name, "First");
            assert_eq!(started_at, at(10));
        }
        _ => panic!("expected a refusal"),
    }
    assert!(matches!(start_plan(None, Some(task("Second", 1, "d")), None, &[]), Ok(StartPlan::Reuse(_))));
    assert!(matches!(start_plan(None, Some(task("Second", 1, "d")), Some("p"), &[]), Ok(StartPlan::Save)));
    assert!(matches!(start_plan(None, None, None, &[]), Ok(StartPlan::Save)));
}

#[test]
fn starts_and_stops_entries() {
    let mut t = task("Write tests", 1, "d");
    t.project = Some("tracker".to_string());
    t.tags = strings(&["rust"]);
    let entry = new_entry("e1".to_string(), t, at(50), "device-a".to_string());
    assert_eq!(entry.task_name, "Write tests");
    assert_eq!(entry.project.as_deref(), Some("tracker"));
    assert!(entry.stopped_at.is_none());
    assert!(matches!(stopped_entries(Vec::new(), at(60), "d"), Err(TrackerError::NoTimerRunning)));
    let stopped = stopped_entries(vec![entry.clone(), entry], at(60), "device-b").unwrap();
    assert_eq!(stopped.len(), 2);
    for e in &stopped {
        assert_eq!(e.stopped_at, Some(at(60)));
        assert_eq!(e.updated_at, at(60));
        assert_eq!(e.source_device, "device-b");
        assert_eq!(e.started_at, at(50));
        assert_eq!(e.elapsed_seconds_at(at(1_000)), 10);
    }
}

#[test]
fn measures_elapsed_time() {
    let entry = new_entry("e".to_string(), task("T", 0, "d"), Timestamp::from_unix(100, 500_000_000).unwrap(), "d".to_string());
    assert_eq!(entry.elapsed_seconds_at(Timestamp::from_unix(102, 400_000_000).unwrap()), 1);
    assert_eq!(entry.elapsed_seconds_at(Timestamp::from_unix(50, 0).unwrap()), 0);
    assert_eq!(entry.elapsed_seconds_at(Timestamp::from_unix(100, 500_000_000).unwrap()), 0);
}

#[test]
fn later_versions_win_and_devices_break_ties() {
    let local = |secs: i64, device: &str| Some((format_time(at(secs)), device.to_string()));
    assert!(is_newer(None, at(1), "a"));
    assert!(is_newer(local(1, "z"), at(2), "a"));
    assert!(!is_newer(local(2, "a"), at(1), "z"));
    assert!(is_newer(local(2, "a"), at(2), "b"));
    assert!(!is_newer(local(2, "b"), at(2), "a"));
    assert!(!is_newer(local(2, "a"), at(2), "a"));
}

#[test]
fn merge_is_idempotent() {
    let mut shared = task("Shared task", 5, "source");
    shared.project = Some("work".to_string());
    let tasks = vec![shared];
    let entry = new_entry("e1".to_string(), tasks[0].clone(), at(5), "source".to_string());
    let entries: Vec<TimeEntry> = vec![entry];
    let mut store: Vec<(String, String, String)> = Vec::new();
    let merge = |store: &mut Vec<(String, String, String)>| {
        let mut run = MergeRun::new();
        for t in &tasks {
            let local = store.iter().find(|r| r.0 == t.id).map(|r| (r.1.clone(), r.2.clone()));
            if run.offer_task(local, t) {
                store.retain(|r| r.0 != t.id);
                store.push((t.id.clone(), format_time(t.updated_at), t.source_device.clone()));
            }
        }
        for e in &entries {
            let local = store.iter().find(|r| r.0 == e.id).map(|r| (r.1.clone(), r.2.clone()));
            if run.offer_entry(local, e) {
                store.retain(|r| r.0 != e.id);
                store.push((e.id.clone(), format_time(e.updated_at), e.source_device.clone()));
            }
        }
        run.finish()
    };
    let first = merge(&mut store);
    let second = merge(&mut store);
    assert_eq!(first.tasks_applied, 1);
    assert_eq!(first.entries_applied, 1);
    assert_eq!(second, MergeSummary::default());
}

#[test]
fn refuses_control_characters_in_new_tasks() {
    match TaskDraft::new("a\u{1b}[2Jb", None, &[]) {
        Err(TrackerError::ControlCharacter { label }) => assert_eq!(label, "task name"),
        _ => panic!("expected a refusal of the name"),
    }
    match TaskDraft::new("Write tests", Some("proj\u{7f}"), &[]) {
        Err(TrackerError::ControlCharacter { label }) => assert_eq!(label, "project"),
        _ => panic!("expected a refusal of the project"),
    }
    match TaskDraft::new("Write tests", None, &strings(&["ok", "b\u{85}ad"])) {
        Err(TrackerError::ControlCharacter { label }) => assert_eq!(label, "tag"),
        _ => panic!("expected a refusal of the tag"),
    }
    match TaskDraft::new("  ", Some("a\u{1}"), &[]) {
        Err(TrackerError::EmptyValue { label }) => assert_eq!(label, "task name"),
        _ => panic!("expected the empty name first"),
    }
    assert!(TaskDraft::new(" Write tests\n", Some(" tracker\t"), &strings(&[" Rust "])).is_ok());
}

#[test]
fn normalized_tags_ignore_order_and_repeats() {
    let a = normalized_tags(&strings(&["b", "A", "c", "a"]));
    let b = normalized_tags(&strings(&["c", "b", "a"]));
    assert_eq!(a, b);
    assert_eq!(normalized_tags(&a), a);
}

#[test]
fn encodes_every_tag_list() {
    assert_eq!(encode_tags(&[]).unwrap(), "[]");
    assert_eq!(encode_tags(&strings(&["é", "\n"])).unwrap(), "[\"é\",\"\\n\"]");
}

#[test]
fn drops_tags_with_nothing_left_once_trimmed() {
    let tags = normalized_tags(&strings(&[" Rust ", "rust", "", "  ", "Backend"]));
    assert_eq!(tags, ["backend", "rust"]);
}

#[test]
fn two_stores_converge_after_exchanging_records() {
    // each store: id -> (updated_at text, device)
    let version = |secs: i64, device: &str| (format_time(at(secs)), device.to_string());
    let mut a: BTreeMap<&str, (String, String)> = BTreeMap::new();
    let mut b: BTreeMap<&str, (String, String)> = BTreeMap::new();
    a.insert("t1", version(100, "device-a"));
    a.insert("t2", version(300, "device-a"));
    b.insert("t1", version(200, "device-b"));
    b.insert("t2", version(300, "device-b"));
    b.insert("t3", version(50, "device-b"));
    let merge = |store: &mut BTreeMap<&'static str, (String, String)>, from: &BTreeMap<&'static str, (String, String)>| {
        for (id, (time, device)) in from {
            let incoming = tracker::time::parse_time(time).unwrap();
            if is_newer(store.get(id).cloned(), incoming, device) {
                store.insert(id, (time.clone(), device.clone()));
            }
        }
    };
    let (a0, b0) = (a.clone(), b.clone());
    merge(&mut a, &b0);
    merge(&mut b, &a0);
    assert_eq!(a, b);
    assert_eq!(a["t1"], version(200, "device-b"));
    assert_eq!(a["t2"], version(300, "device-b"));
    assert_eq!(a["t3"], version(50, "device-b"));
}
