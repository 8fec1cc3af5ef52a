use clap::error::ErrorKind;
use clap::{Arg, ArgAction, ArgMatches, Command};
use tracker::cli::{
    display_duration, display_project, display_tags, interpret_since, normalize_start_tag_shortcuts,
    report_totals, ShortcutArg, Since,
};
use tracker::error::TrackerError;
use tracker::model::TimeEntry;
use tracker::time::Timestamp;

fn tracking(name: &'static str) -> Command {
    Command::new(name)
        .arg(Arg::new("name").required(true))
        .arg(Arg::new("project").short('p').long("project"))
        .arg(Arg::new("tag").short('t').long("tag").action(ArgAction::Append))
}

fn command_line() -> Command {
    Command::new("tracker")
        .arg(Arg::new("database").long("database").global(true))
        .subcommand(
            Command::new("task")
                .subcommand(tracking("add"))
                .subcommand(Command::new("list")),
        )
        .subcommand(tracking("start"))
        .subcommand(Command::new("stop"))
        .subcommand(Command::new("status"))
        .subcommand(Command::new("report").arg(Arg::new("since").long("since").default_value("today")))
        .subcommand(Command::new("snapshot").arg(Arg::new("since").long("since").default_value("7d")))
        .subcommand(Command::new("serve").arg(Arg::new("bind").long("bind")))
        .subcommand(Command::new("sync").arg(Arg::new("peer").long("peer")))
        .subcommand(Command::new("info"))
}

fn expanded(arguments: &[&str]) -> Vec<String> {
    let texts: Vec<Option<String>> = arguments.iter().map(|a| Some(a.to_string())).collect();
    normalize_start_tag_shortcuts(&texts)
        .into_iter()
        .map(|a| match a {
            ShortcutArg::Original(i) => arguments[i].to_string(),
            ShortcutArg::Text(t) => t,
        })
        .collect()
}

fn parse(arguments: &[&str]) -> Result<ArgMatches, clap::Error> {
    command_line().try_get_matches_from(expanded(arguments))
}

fn start_arguments(matches: &ArgMatches) -> (String, Option<String>, Vec<String>) {
    let Some(("start", start)) = matches.subcommand() else {
        panic!("expected start command");
    };
    (
        start.get_one::<String>("name").unwrap().clone(),
        start.get_one::<String>("project").cloned(),
        start.get_many::<String>("tag").map(|t| t.cloned().collect()).unwrap_or_default(),
    )
}

#[test]
fn formats_duration() {
    assert_eq!(display_duration(3_661), "01:01:01");
}

#[test]
fn formats_long_and_negative_durations() {
    assert_eq!(display_duration(0), "00:00:00");
    assert_eq!(display_duration(360_000), "100:00:00");
    assert_eq!(display_duration(-3_661), "-1:-1:-1");
    assert_eq!(display_duration(-59), "00:00:-59");
}

#[test]
fn turns_start_shortcuts_into_tags() {
    let cli = parse(&["tracker", "start", "Chess Study", "--chess", "--focused-work"]).unwrap();
    let (name, _, tags) = start_arguments(&cli);
    assert_eq!(name, "Chess Study");
    assert_eq!(tags, ["chess", "focused-work"]);
}

#[test]
fn preserves_regular_start_options() {
    let cli = parse(&[
        "tracker",
        "--database",
        "test.db",
        "start",
        "Read Paper",
        "--project",
        "Cornell",
        "--tag=reading",
        "--cornell",
    ])
    .unwrap();
    let (_, project, tags) = start_arguments(&cli);
    assert_eq!(project.as_deref(), Some("Cornell"));
    assert_eq!(tags, ["reading", "cornell"]);
}

#[test]
fn does_not_turn_other_command_options_into_tags() {
    let error = parse(&["tracker", "report", "--unknown"])
        .err()
        .expect("unknown report option should fail");
    assert_eq!(error.kind(), ErrorKind::UnknownArgument);
}

#[test]
fn preserves_literal_task_names_that_begin_with_a_dash() {
    let cli = parse(&["tracker", "start", "--tag", "safe", "--", "--review"]).unwrap();
    let (name, _, tags) = start_arguments(&cli);
    assert_eq!(name, "--review");
    assert_eq!(tags, ["safe"]);
}

#[test]
fn expansion_keeps_arguments_that_are_not_unicode_or_not_after_start() {
    let texts = vec![Some("tracker".to_string()), None, Some("--chess".to_string())];
    let out = normalize_start_tag_shortcuts(&texts);
    assert_eq!(out.len(), 3);
    for (i, a) in out.iter().enumerate() {
        assert!(matches!(a, ShortcutArg::Original(j) if *j == i));
    }
}

#[test]
fn expansion_leaves_other_commands_alone() {
    let args = ["tracker", "task", "add", "start", "--unknown"];
    assert_eq!(expanded(&args), args);
    let args = ["tracker", "--database", "start", "report", "--chess"];
    assert_eq!(expanded(&args), args);
    assert_eq!(
        expanded(&["tracker", "--database", "db.sqlite", "start", "--chess"]),
        ["tracker", "--database", "db.sqlite", "start", "--tag", "chess"]
    );
}

#[test]
fn expanding_twice_changes_nothing_more() {
    let once = expanded(&["tracker", "start", "Study", "--chess", "-p", "games", "--x", "--", "--y"]);
    assert_eq!(once, ["tracker", "start", "Study", "--tag", "chess", "-p", "games", "--tag", "x", "--", "--y"]);
    let again: Vec<&str> = once.iter().map(String::as_str).collect();
    assert_eq!(expanded(&again), once);
}

#[test]
fn parses_relative_days() {
    let seconds = match interpret_since("7d") {
        Ok(Since::SecondsAgo(seconds)) => seconds,
        _ => panic!("expected a relative start"),
    };
    let parsed = chrono::Utc::now() - chrono::Duration::seconds(seconds as i64);
    let difference = chrono::Utc::now().signed_duration_since(parsed).num_days();
    assert!((6..=7).contains(&difference));
}

#[test]
fn expansion_keeps_help_and_option_values() {
    let out = expanded(&["tracker", "start", "-p", "--chess", "--help", "--x"]);
    assert_eq!(out, ["tracker", "start", "-p", "--chess", "--help", "--tag", "x"]);
}

#[test]
fn displays_projects_and_tags() {
    assert_eq!(display_project(Some("tracker")), " Project: tracker.");
    assert_eq!(display_project(None), "");
    assert_eq!(display_tags(&[]), "");
    assert_eq!(display_tags(&["rust".to_string(), "cli".to_string()]), " #rust #cli");
}

#[test]
fn interprets_report_starts() {
    assert!(matches!(interpret_since("ToDaY"), Ok(Since::Today)));
    assert!(matches!(interpret_since("7d"), Ok(Since::SecondsAgo(604_800))));
    assert!(matches!(interpret_since("+2d"), Ok(Since::SecondsAgo(172_800))));
    assert!(matches!(interpret_since("d"), Err(TrackerError::DayCountInvalid)));
    assert!(matches!(interpret_since("-1d"), Err(TrackerError::DayCountInvalid)));
    assert!(matches!(interpret_since("99999999999999999999d"), Err(TrackerError::DayCountInvalid)));
    assert!(matches!(interpret_since("200000000000d"), Err(TrackerError::DayCountTooLarge)));
    assert!(matches!(interpret_since("yesterday"), Err(TrackerError::SinceUnparsable)));
    match interpret_since("2024-01-02T03:04:05Z") {
        Ok(Since::At(t)) => {
            assert_eq!(t.secs(), 1_704_164_645);
            assert_eq!(t.nanos(), 0);
        }
        _ => panic!("expected an instant"),
    }
}

fn entry(project: Option<&str>, start: i64, stop: Option<i64>) -> TimeEntry {
    TimeEntry {
        id: format!("entry-{start}"),
        task_id: "task".to_string(),
        task_name: "Task".to_string(),
        project: project.map(str::to_string),
        tags: Vec::new(),
        started_at: Timestamp::from_unix(start, 0).unwrap(),
        stopped_at: stop.map(|s| Timestamp::from_unix(s, 0).unwrap()),
        updated_at: Timestamp::from_unix(start, 0).unwrap(),
        source_device: "device".to_string(),
        deleted: false,
    }
}

#[test]
fn totals_report_by_project() {
    let now = Timestamp::from_unix(10_000, 0).unwrap();
    let entries = vec![
        entry(Some("work"), 0, Some(600)),
        entry(None, 1_000, Some(1_060)),
        entry(Some("chess"), 2_000, None),
        entry(Some("work"), 3_000, Some(3_030)),
    ];
    let totals = report_totals(&entries, now);
    let listed: Vec<(String, i64)> = totals
        .projects
        .iter()
        .map(|t| (t.project.clone(), t.seconds))
        .collect();
    assert_eq!(
        listed,
        [
            ("(no project)".to_string(), 60),
            ("chess".to_string(), 8_000),
            ("work".to_string(), 630),
        ]
    );
    assert_eq!(totals.total, 8_690);
}
