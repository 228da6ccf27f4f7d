use watchmux::event::{raw_events_of, CanonicalEvent, EventType, RawEvent, RawKind};
use watchmux::normalize::normalize_events;
use watchmux::output::{decimal_string, event_line, flush_line};

fn pairs(events: &[CanonicalEvent]) -> Vec<(EventType, String)> {
    events.iter().map(|e| (e.kind, e.path.clone())).collect()
}

#[test]
fn event_names_are_lower_case_words() {
    assert_eq!(EventType::Create.name(), "create");
    assert_eq!(EventType::Change.name(), "change");
    assert_eq!(EventType::Delete.name(), "delete");
}

#[test]
fn rename_with_both_ends_is_delete_then_create() {
    let batch = vec![RawEvent::RenameBoth("/r/old.txt".to_string(), "/r/new.txt".to_string())];
    let out = normalize_events(&batch);
    assert_eq!(
        pairs(&out),
        vec![
            (EventType::Delete, "/r/old.txt".to_string()),
            (EventType::Create, "/r/new.txt".to_string()),
        ]
    );
}

#[test]
fn rename_to_alone_is_create_then_change() {
    let batch = vec![RawEvent::RenameTo("/r/new.txt".to_string())];
    let out = normalize_events(&batch);
    assert_eq!(
        pairs(&out),
        vec![
            (EventType::Create, "/r/new.txt".to_string()),
            (EventType::Change, "/r/new.txt".to_string()),
        ]
    );
}

#[test]
fn rename_from_alone_is_delete() {
    let batch = vec![RawEvent::RenameFrom("/r/old.txt".to_string())];
    let out = normalize_events(&batch);
    assert_eq!(pairs(&out), vec![(EventType::Delete, "/r/old.txt".to_string())]);
}

#[test]
fn plain_kinds_map_one_to_one() {
    let batch = vec![
        RawEvent::Create("/r/a".to_string()),
        RawEvent::Modify("/r/b".to_string()),
        RawEvent::Remove("/r/c".to_string()),
    ];
    let out = normalize_events(&batch);
    assert_eq!(
        pairs(&out),
        vec![
            (EventType::Create, "/r/a".to_string()),
            (EventType::Change, "/r/b".to_string()),
            (EventType::Delete, "/r/c".to_string()),
        ]
    );
}

#[test]
fn other_kinds_are_dropped() {
    let batch = vec![RawEvent::Other("/r/a".to_string())];
    assert!(normalize_events(&batch).is_empty());
    assert!(normalize_events(&Vec::new()).is_empty());
}

#[test]
fn synthetic_events_stay_next_to_their_source() {
    let batch = vec![
        RawEvent::Create("/r/first".to_string()),
        RawEvent::RenameBoth("/r/x".to_string(), "/r/y".to_string()),
        RawEvent::Other("/r/skip".to_string()),
        RawEvent::RenameTo("/r/z".to_string()),
        RawEvent::Remove("/r/last".to_string()),
    ];
    let out = normalize_events(&batch);
    assert_eq!(
        pairs(&out),
        vec![
            (EventType::Create, "/r/first".to_string()),
            (EventType::Delete, "/r/x".to_string()),
            (EventType::Create, "/r/y".to_string()),
            (EventType::Create, "/r/z".to_string()),
            (EventType::Change, "/r/z".to_string()),
            (EventType::Delete, "/r/last".to_string()),
        ]
    );
}

#[test]
fn normalizing_two_halves_equals_normalizing_the_whole() {
    let first = vec![
        RawEvent::RenameTo("/r/a".to_string()),
        RawEvent::Modify("/r/b".to_string()),
    ];
    let second = vec![
        RawEvent::RenameBoth("/r/c".to_string(), "/r/d".to_string()),
        RawEvent::RenameFrom("/r/e".to_string()),
    ];
    let mut whole = first.clone();
    whole.extend(second.iter().cloned());
    let mut joined = pairs(&normalize_events(&first));
    joined.extend(pairs(&normalize_events(&second)));
    assert_eq!(pairs(&normalize_events(&whole)), joined);
}

#[test]
fn decimal_of_small_and_large_numbers() {
    assert_eq!(decimal_string(0), "0");
    assert_eq!(decimal_string(7), "7");
    assert_eq!(decimal_string(10), "10");
    assert_eq!(decimal_string(1234567890), "1234567890");
    assert_eq!(decimal_string(usize::MAX), usize::MAX.to_string());
}

#[test]
fn event_line_joins_id_kind_and_path_with_colons() {
    assert_eq!(event_line(1, EventType::Create, "src/a.rs"), "1:create:src/a.rs");
    assert_eq!(event_line(42, EventType::Delete, ""), "42:delete:");
    assert_eq!(event_line(305, EventType::Change, "a:b"), "305:change:a:b");
}

#[test]
fn flush_line_is_the_literal_mark() {
    assert_eq!(flush_line(), "<flush>");
}

#[test]
fn clones_are_equal_to_what_they_were_made_from() {
    let raw = RawEvent::RenameBoth("/r/a".to_string(), "/r/b".to_string());
    match raw.clone() {
        RawEvent::RenameBoth(from, to) => {
            assert_eq!(from, "/r/a");
            assert_eq!(to, "/r/b");
        }
        other => panic!("the clone is {other:?}"),
    }
    let event = CanonicalEvent { kind: EventType::Change, path: "/r/a".to_string() };
    let copy = event.clone();
    assert_eq!(copy.kind, EventType::Change);
    assert_eq!(copy.path, "/r/a");
}

fn kinds(events: &[RawEvent]) -> Vec<String> {
    events.iter().map(|e| format!("{e:?}")).collect()
}

#[test]
fn report_with_one_path_is_one_raw_event() {
    let paths = vec!["/r/a".to_string()];
    let table = [
        (RawKind::Create, "Create(\"/r/a\")"),
        (RawKind::Modify, "Modify(\"/r/a\")"),
        (RawKind::Remove, "Remove(\"/r/a\")"),
        (RawKind::RenameFrom, "RenameFrom(\"/r/a\")"),
        (RawKind::RenameTo, "RenameTo(\"/r/a\")"),
        (RawKind::Other, "Other(\"/r/a\")"),
    ];
    for (kind, expected) in table {
        let events = raw_events_of(kind, &paths).unwrap();
        assert_eq!(kinds(&events), vec![expected.to_string()]);
    }
}

#[test]
fn report_with_several_paths_is_one_raw_event_each() {
    let paths = vec!["/r/a".to_string(), "/r/b".to_string(), "/r/c".to_string()];
    let events = raw_events_of(RawKind::Remove, &paths).unwrap();
    assert_eq!(
        kinds(&events),
        vec![
            "Remove(\"/r/a\")".to_string(),
            "Remove(\"/r/b\")".to_string(),
            "Remove(\"/r/c\")".to_string(),
        ]
    );
    assert!(raw_events_of(RawKind::Create, &Vec::new()).unwrap().is_empty());
}

#[test]
fn rename_with_both_ends_takes_exactly_two_paths() {
    let two = vec!["/r/old".to_string(), "/r/new".to_string()];
    let events = raw_events_of(RawKind::RenameBoth, &two).unwrap();
    assert_eq!(kinds(&events), vec!["RenameBoth(\"/r/old\", \"/r/new\")".to_string()]);
    assert!(raw_events_of(RawKind::RenameBoth, &Vec::new()).is_none());
    assert!(raw_events_of(RawKind::RenameBoth, &vec!["/r/a".to_string()]).is_none());
    let three = vec!["/r/a".to_string(), "/r/b".to_string(), "/r/c".to_string()];
    assert!(raw_events_of(RawKind::RenameBoth, &three).is_none());
}
