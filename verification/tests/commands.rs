use marmita::commands::{
    added_message, apply_update, next_update_step, record_fetch, UpdateStep, list_args, list_line, parse_add_args, parse_command,
    record_added, remove_entry, removed_message, require_entries, rm_args, unknown_command_message,
    update_action, update_args, update_message, update_outcome, Command, UpdateAction,
};
use marmita::manifest::Entry;

const USAGE: &str = "usage: marmita add [-r ref] <url> [file]\n       marmita update [file]\n       marmita rm <file>\n       marmita list\n       marmita -V";

fn strings(v: &[&str]) -> Vec<String> {
    v.iter().map(|s| s.to_string()).collect()
}

fn entry(file: &str, origin: &str, reference: Option<&str>, commit: &str, date: &str) -> Entry {
    Entry {
        file: file.to_string(),
        origin: origin.to_string(),
        reference: reference.map(|r| r.to_string()),
        commit: commit.to_string(),
        date: date.to_string(),
    }
}

#[test]
fn command_usage_and_version() {
    assert!(matches!(parse_command(&strings(&["marmita"])), Command::Usage));
    assert!(matches!(parse_command(&strings(&[])), Command::Usage));
    assert!(matches!(parse_command(&strings(&["marmita", "-V", "x"])), Command::Version));
}

#[test]
fn command_dispatch() {
    match parse_command(&strings(&["marmita", "add", "-r", "v1", "url"])) {
        Command::Add(rest) => assert_eq!(rest, strings(&["-r", "v1", "url"])),
        _ => panic!("expected add"),
    }
    match parse_command(&strings(&["marmita", "update"])) {
        Command::Update(rest) => assert!(rest.is_empty()),
        _ => panic!("expected update"),
    }
    assert!(matches!(parse_command(&strings(&["m", "rm", "a.rs"])), Command::Rm(_)));
    assert!(matches!(parse_command(&strings(&["m", "list"])), Command::List(_)));
    match parse_command(&strings(&["m", "frob"])) {
        Command::Unknown(name) => assert_eq!(name, "frob"),
        _ => panic!("expected unknown"),
    }
}

#[test]
fn unknown_command_text() {
    assert_eq!(
        unknown_command_message("frob"),
        format!("unknown command 'frob'\n{}", USAGE)
    );
}

#[test]
fn add_args_url_only() {
    let q = parse_add_args(&strings(&["ssh://h/json/jackson"])).unwrap();
    assert_eq!(q.url, "ssh://h/json/jackson");
    assert_eq!(q.reference, None);
    assert_eq!(q.file, "jackson.rs");
    assert_eq!(q.revision, "HEAD");
}

#[test]
fn add_args_with_ref_and_file() {
    let q = parse_add_args(&strings(&["u", "-r", "v1.3.0", "f.rs"])).unwrap();
    assert_eq!(q.url, "u");
    assert_eq!(q.reference, Some("v1.3.0".to_string()));
    assert_eq!(q.file, "f.rs");
    assert_eq!(q.revision, "v1.3.0");
}

#[test]
fn add_args_last_ref_wins() {
    let q = parse_add_args(&strings(&["-r", "a", "-r", "b", "u"])).unwrap();
    assert_eq!(q.reference, Some("b".to_string()));
}

#[test]
fn add_args_errors() {
    assert_eq!(
        parse_add_args(&strings(&["u", "-r"])).err().unwrap(),
        "-r requires an argument"
    );
    assert_eq!(parse_add_args(&strings(&[])).err().unwrap(), USAGE);
    assert_eq!(parse_add_args(&strings(&["-r", "x"])).err().unwrap(), USAGE);
    assert_eq!(parse_add_args(&strings(&["u", "f", "g"])).err().unwrap(), USAGE);
}

#[test]
fn record_replaces_entry_of_file() {
    let es = vec![
        entry("a.rs", "o1", None, "c1", "d1"),
        entry("b.rs", "o2", None, "c2", "d2"),
        entry("a.rs", "o3", None, "c3", "d3"),
    ];
    let r = record_added(
        es,
        "a.rs".to_string(),
        "new".to_string(),
        Some("main".to_string()),
        "c9".to_string(),
        "d9".to_string(),
    );
    assert_eq!(r.len(), 2);
    assert_eq!(r[0].file, "b.rs");
    assert_eq!(r[1].file, "a.rs");
    assert_eq!(r[1].origin, "new");
    assert_eq!(r[1].reference, Some("main".to_string()));
    assert_eq!(r[1].commit, "c9");
    assert_eq!(r[1].date, "d9");
}

#[test]
fn record_drops_commit_like_reference() {
    let r = record_added(
        Vec::new(),
        "a.rs".to_string(),
        "o".to_string(),
        Some("a4e84f6d2f".to_string()),
        "a4e84f6d2f21d8a5f28d17a38ed9968251325714".to_string(),
        "d".to_string(),
    );
    assert_eq!(r[0].reference, None);
    let r = record_added(
        Vec::new(),
        "a.rs".to_string(),
        "o".to_string(),
        None,
        "c".to_string(),
        "d".to_string(),
    );
    assert_eq!(r[0].reference, None);
}

#[test]
fn added_message_uses_short_commit() {
    assert_eq!(
        added_message("jackson.rs", "a4e84f6d2f21d8a5f28d17a38ed9968251325714"),
        "added jackson.rs (a4e84f6d2f21)"
    );
}

#[test]
fn update_args_cases() {
    assert_eq!(update_args(&strings(&[])).unwrap(), None);
    assert_eq!(update_args(&strings(&["a.rs"])).unwrap(), Some("a.rs".to_string()));
    assert_eq!(update_args(&strings(&["a", "b"])).unwrap_err(), USAGE);
}

#[test]
fn require_entries_cases() {
    assert_eq!(require_entries(&[]).unwrap_err(), "vendor/VENDOR: no entries");
    assert!(require_entries(&[entry("a", "o", None, "c", "d")]).is_ok());
}

#[test]
fn update_action_cases() {
    let followed = entry("a.rs", "o", Some("main"), "c", "d");
    let pinned = entry("b.rs", "o", None, "c", "d");
    match update_action(&followed, &None) {
        UpdateAction::Fetch(rev) => assert_eq!(rev, "main"),
        _ => panic!("expected fetch"),
    }
    match update_action(&pinned, &None) {
        UpdateAction::SkipPinned(m) => assert_eq!(m, "marmita: skip b.rs (pinned to commit, no ref)"),
        _ => panic!("expected skip"),
    }
    match update_action(&pinned, &Some("b.rs".to_string())) {
        UpdateAction::Refuse(m) => assert_eq!(m, "b.rs: pinned to commit, no ref to follow"),
        _ => panic!("expected refusal"),
    }
    assert!(matches!(
        update_action(&pinned, &Some("a.rs".to_string())),
        UpdateAction::NotSelected
    ));
    assert!(matches!(
        update_action(&followed, &Some("a.rs".to_string())),
        UpdateAction::Fetch(_)
    ));
}

#[test]
fn apply_update_reports_change() {
    let mut e = entry("a.rs", "o", Some("main"), "c1", "d1");
    assert!(!apply_update(&mut e, "c1".to_string(), "d2".to_string()));
    assert_eq!(e.date, "d2");
    assert!(apply_update(&mut e, "c2".to_string(), "d3".to_string()));
    assert_eq!(e.commit, "c2");
    assert_eq!(e.date, "d3");
    assert_eq!(e.origin, "o");
    assert_eq!(e.reference, Some("main".to_string()));
}

#[test]
fn update_message_cases() {
    let c = "a4e84f6d2f21d8a5f28d17a38ed9968251325714";
    assert_eq!(update_message("a.rs", c, true), "updated a.rs -> a4e84f6d2f21");
    assert_eq!(update_message("a.rs", c, false), "up to date a.rs (a4e84f6d2f21)");
}

#[test]
fn update_outcome_cases() {
    assert!(update_outcome(&None, 0).is_ok());
    assert!(update_outcome(&Some("a.rs".to_string()), 1).is_ok());
    assert_eq!(
        update_outcome(&Some("a.rs".to_string()), 0).unwrap_err(),
        "a.rs: no such entry"
    );
}

#[test]
fn rm_args_cases() {
    assert_eq!(rm_args(&strings(&["a.rs"])).unwrap(), "a.rs");
    assert_eq!(rm_args(&strings(&[])).unwrap_err(), USAGE);
    assert_eq!(rm_args(&strings(&["a", "b"])).unwrap_err(), USAGE);
}

#[test]
fn remove_entry_cases() {
    let mut es = vec![
        entry("a.rs", "o1", None, "c", "d"),
        entry("b.rs", "o2", None, "c", "d"),
        entry("a.rs", "o3", None, "c", "d"),
    ];
    assert!(remove_entry(&mut es, "a.rs").is_ok());
    assert_eq!(es.len(), 1);
    assert_eq!(es[0].file, "b.rs");
    assert_eq!(remove_entry(&mut es, "z.rs").unwrap_err(), "z.rs: no such entry");
    assert_eq!(es.len(), 1);
    assert_eq!(removed_message("a.rs"), "removed a.rs");
}

#[test]
fn list_cases() {
    assert!(list_args(&strings(&[])).is_ok());
    assert_eq!(list_args(&strings(&["x"])).unwrap_err(), USAGE);
    let e = entry(
        "jackson.rs",
        "ssh://h/json/jackson",
        Some("v1.3.0"),
        "a4e84f6d2f21d8a5f28d17a38ed9968251325714",
        "2026-04-18",
    );
    assert_eq!(
        list_line(&e),
        "jackson.rs\ta4e84f6d2f21\tv1.3.0\t2026-04-18\tssh://h/json/jackson"
    );
    let p = entry("p.rs", "o", None, "abc", "d");
    assert_eq!(list_line(&p), "p.rs\tabc\t-\td\to");
}

#[test]
fn update_steps_without_target() {
    let es = vec![
        entry("a.rs", "o", Some("main"), "c", "d"),
        entry("b.rs", "o", None, "c", "d"),
    ];
    match next_update_step(&es, &None, 0, 0) {
        UpdateStep::Fetch { index, revision } => {
            assert_eq!(index, 0);
            assert_eq!(revision, "main");
        }
        s => panic!("unexpected {:?}", s),
    }
    match next_update_step(&es, &None, 1, 1) {
        UpdateStep::SkipPinned { index, message } => {
            assert_eq!(index, 1);
            assert_eq!(message, "marmita: skip b.rs (pinned to commit, no ref)");
        }
        s => panic!("unexpected {:?}", s),
    }
    assert!(matches!(next_update_step(&es, &None, 2, 1), UpdateStep::Write));
    assert!(matches!(next_update_step(&es, &None, 2, 0), UpdateStep::Write));
}

#[test]
fn update_steps_with_target() {
    let es = vec![
        entry("a.rs", "o", Some("main"), "c", "d"),
        entry("b.rs", "o", None, "c", "d"),
        entry("c.rs", "o", Some("v2"), "c", "d"),
    ];
    let c = Some("c.rs".to_string());
    match next_update_step(&es, &c, 0, 0) {
        UpdateStep::Fetch { index, revision } => {
            assert_eq!(index, 2);
            assert_eq!(revision, "v2");
        }
        s => panic!("unexpected {:?}", s),
    }
    assert!(matches!(next_update_step(&es, &c, 3, 1), UpdateStep::Write));
    match next_update_step(&es, &Some("b.rs".to_string()), 0, 0) {
        UpdateStep::Fail(m) => assert_eq!(m, "b.rs: pinned to commit, no ref to follow"),
        s => panic!("unexpected {:?}", s),
    }
    match next_update_step(&es, &Some("z.rs".to_string()), 0, 0) {
        UpdateStep::Fail(m) => assert_eq!(m, "z.rs: no such entry"),
        s => panic!("unexpected {:?}", s),
    }
}

#[test]
fn record_fetch_updates_one_entry() {
    let mut es = vec![
        entry("a.rs", "o", Some("main"), "c1", "d1"),
        entry("b.rs", "p", Some("dev"), "c2", "d2"),
    ];
    let (changed, touched) = record_fetch(&mut es, 1, "c3".to_string(), "d3".to_string(), 4);
    assert!(changed);
    assert_eq!(touched, 5);
    assert_eq!(es[0].commit, "c1");
    assert_eq!(es[1].commit, "c3");
    assert_eq!(es[1].date, "d3");
    assert_eq!(es[1].origin, "p");
    let (changed, _) = record_fetch(&mut es, 0, "c1".to_string(), "d9".to_string(), 0);
    assert!(!changed);
}
