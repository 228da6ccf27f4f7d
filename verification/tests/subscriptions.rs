use watchmux::config::{RegisterError, RegisterRequest, WatcherConfig};
use watchmux::event::{CanonicalEvent, EventType};
use watchmux::registry::{Registry, UnregisterError};

fn request(uid: usize, cwd: &str, events: &[EventType], patterns: &[&str], ignores: &[&str]) -> RegisterRequest {
    RegisterRequest {
        cwd: cwd.to_string(),
        events: events.to_vec(),
        ignores: ignores.iter().map(|s| s.to_string()).collect(),
        patterns: patterns.iter().map(|s| s.to_string()).collect(),
        uid,
    }
}

fn config(uid: usize, cwd: &str, events: &[EventType], patterns: &[&str], ignores: &[&str]) -> WatcherConfig {
    WatcherConfig::from_request(request(uid, cwd, events, patterns, ignores))
        .unwrap()
        .config
}

fn event(kind: EventType, path: &str) -> CanonicalEvent {
    CanonicalEvent { kind, path: path.to_string() }
}

#[test]
fn compiled_subscription_keeps_what_was_asked() {
    let c = config(7, "/proj", &[EventType::Create, EventType::Delete], &["src/**", "*.md"], &["target/*"]);
    assert_eq!(c.uid(), 7);
    assert_eq!(c.cwd(), "/proj");
    assert_eq!(c.events(), &vec![EventType::Create, EventType::Delete]);
    assert_eq!(c.patterns(), vec!["/proj/src/**".to_string(), "/proj/*.md".to_string()]);
    assert_eq!(c.ignores(), vec!["/proj/target/*".to_string()]);
}

#[test]
fn root_that_is_not_canonical_is_turned_down() {
    for cwd in ["", "proj", "/proj/", "/a/../b", "/a//b", "/a/./b"] {
        let r = WatcherConfig::from_request(request(1, cwd, &[EventType::Create], &["*"], &[]));
        assert_eq!(r.err(), Some(RegisterError::InvalidRoot));
    }
}

#[test]
fn patterns_that_do_not_compile_are_dropped_and_reported() {
    let compiled = WatcherConfig::from_request(request(
        1,
        "/proj",
        &[EventType::Create],
        &["a***", "ok/*.rs", "x[y"],
        &["b**c", "tmp/*"],
    ))
    .unwrap();
    assert_eq!(compiled.config.patterns(), vec!["/proj/ok/*.rs".to_string()]);
    assert_eq!(compiled.config.ignores(), vec!["/proj/tmp/*".to_string()]);
    assert_eq!(
        compiled.rejected,
        vec!["/proj/a***".to_string(), "/proj/x[y".to_string(), "/proj/b**c".to_string()]
    );
}

#[test]
fn dropped_pattern_still_counts_as_a_literal_path() {
    let c = config(1, "/proj", &[EventType::Create], &["x[y"], &[]);
    assert!(c.patterns().is_empty());
    assert!(c.accepts("/proj/x[y/file"));
    assert!(!c.accepts("/proj/other"));
}

#[test]
fn wants_goes_by_the_event_mask() {
    let c = config(1, "/proj", &[EventType::Create, EventType::Delete], &["*"], &[]);
    assert!(c.wants(EventType::Create));
    assert!(c.wants(EventType::Delete));
    assert!(!c.wants(EventType::Change));
    let none = config(2, "/proj", &[], &["*"], &[]);
    assert!(!none.wants(EventType::Create));
}

#[test]
fn include_and_ignore_patterns_filter_paths() {
    let c = config(1, "/w", &[EventType::Create], &["*.txt"], &["tmp/*"]);
    assert!(c.accepts("/w/notes.txt"));
    assert!(!c.accepts("/w/tmp/notes.txt"));
    assert!(!c.accepts("/w/notes.md"));
}

#[test]
fn ignore_wins_over_a_literal_path() {
    let c = config(1, "/w", &[EventType::Create], &["src"], &["src/gen/*"]);
    assert!(c.accepts("/w/src/a.rs"));
    assert!(c.accepts("/w/src"));
    assert!(!c.accepts("/w/src/gen/a.rs"));
    assert!(!c.accepts("/w/srcx/a.rs"));
}

#[test]
fn nothing_is_accepted_without_include_patterns() {
    let c = config(1, "/w", &[EventType::Create], &[], &[]);
    assert!(!c.accepts("/w/a"));
    assert!(!c.accepts("/w"));
}

#[test]
fn line_for_a_delivered_event() {
    let c = config(1, "/proj", &[EventType::Create, EventType::Delete], &["src/**"], &[]);
    assert_eq!(
        c.line_for(&event(EventType::Create, "/proj/src/a.rs")),
        Some("1:create:src/a.rs".to_string())
    );
    assert_eq!(
        c.line_for(&event(EventType::Delete, "/proj/src/deep/b.rs")),
        Some("1:delete:src/deep/b.rs".to_string())
    );
}

#[test]
fn no_line_for_an_event_that_is_filtered_out() {
    let c = config(1, "/proj", &[EventType::Create, EventType::Delete], &["src/**"], &[]);
    assert_eq!(c.line_for(&event(EventType::Create, "/proj/docs/x.md")), None);
    assert_eq!(c.line_for(&event(EventType::Change, "/proj/src/a.rs")), None);
}

#[test]
fn no_line_for_a_path_outside_the_root() {
    let c = config(3, "/proj", &[EventType::Create], &["/elsewhere/*"], &[]);
    assert!(c.accepts("/elsewhere/a"));
    assert_eq!(c.line_for(&event(EventType::Create, "/elsewhere/a")), None);
}

#[test]
fn registry_keeps_ascending_order_of_ids() {
    let mut r = Registry::new();
    for uid in [5usize, 1, 9, 3] {
        assert_eq!(r.register(config(uid, "/p", &[EventType::Create], &["*"], &[])), Ok(()));
    }
    let ids: Vec<usize> = r.snapshot().iter().map(|c| c.uid()).collect();
    assert_eq!(ids, vec![1, 3, 5, 9]);
    assert_eq!(r.len(), 4);
    assert!(r.contains(3));
    assert!(!r.contains(4));
}

#[test]
fn registry_turns_down_a_taken_id_and_keeps_the_first() {
    let mut r = Registry::new();
    assert_eq!(r.register(config(2, "/first", &[EventType::Create], &["*"], &[])), Ok(()));
    assert_eq!(
        r.register(config(2, "/second", &[EventType::Delete], &["*"], &[])),
        Err(RegisterError::DuplicateId)
    );
    assert_eq!(r.len(), 1);
    assert_eq!(r.snapshot()[0].cwd(), "/first");
}

#[test]
fn registry_hands_back_what_it_takes_out() {
    let mut r = Registry::new();
    for uid in [1usize, 2, 3] {
        let cwd = format!("/p{}", uid);
        assert_eq!(r.register(config(uid, &cwd, &[EventType::Create], &["*"], &[])), Ok(()));
    }
    let gone = r.unregister(2).unwrap();
    assert_eq!(gone.uid(), 2);
    assert_eq!(gone.cwd(), "/p2");
    let ids: Vec<usize> = r.snapshot().iter().map(|c| c.uid()).collect();
    assert_eq!(ids, vec![1, 3]);
    assert_eq!(r.unregister(2).err(), Some(UnregisterError::NotFound));
    assert_eq!(r.unregister(8).err(), Some(UnregisterError::NotFound));
    assert_eq!(r.len(), 2);
}

#[test]
fn verdict_follows_the_filter_rule() {
    let c = config(1, "/w", &[EventType::Create], &["src"], &[]);
    // A literal path holds "/w/src/a"; nothing holds "/w/doc/a".
    assert!(c.verdict("/w/src/a", false, false));
    assert!(c.verdict("/w/src/a", true, false));
    assert!(!c.verdict("/w/src/a", false, true));
    assert!(!c.verdict("/w/src/a", true, true));
    assert!(!c.verdict("/w/doc/a", false, false));
    assert!(c.verdict("/w/doc/a", true, false));
    assert!(!c.verdict("/w/doc/a", true, true));
    assert!(!c.verdict("/w/doc/a", false, true));
}

#[test]
fn line_given_what_the_patterns_said() {
    let c = config(9, "/w", &[EventType::Create, EventType::Change], &[], &[]);
    let inside = event(EventType::Create, "/w/doc/a");
    assert_eq!(c.line_given(&inside, true, false), Some("9:create:doc/a".to_string()));
    assert_eq!(c.line_given(&inside, false, false), None);
    assert_eq!(c.line_given(&inside, true, true), None);
    let unwanted = event(EventType::Delete, "/w/doc/a");
    assert_eq!(c.line_given(&unwanted, true, false), None);
    let outside = event(EventType::Change, "/elsewhere/a");
    assert_eq!(c.line_given(&outside, true, false), None);
    let root = event(EventType::Change, "/w");
    assert_eq!(c.line_given(&root, true, false), Some("9:change:".to_string()));
}

#[test]
fn compiled_patterns_are_kept_and_failures_are_rejected() {
    let mut kept = Vec::new();
    let mut rejected = vec!["earlier".to_string()];
    let good = "/w/*.rs".to_string();
    let bad = "/w/a***".to_string();
    watchmux::config::take_compiled(&good, glob::Pattern::new(&good), &mut kept, &mut rejected);
    assert_eq!(kept.len(), 1);
    assert_eq!(kept[0].as_str(), "/w/*.rs");
    assert_eq!(rejected, vec!["earlier".to_string()]);
    watchmux::config::take_compiled(&bad, glob::Pattern::new(&bad), &mut kept, &mut rejected);
    assert_eq!(kept.len(), 1);
    assert_eq!(rejected, vec!["earlier".to_string(), "/w/a***".to_string()]);
}

#[test]
fn any_of_the_patterns_may_match() {
    let patterns = vec![
        glob::Pattern::new("/w/*.rs").unwrap(),
        glob::Pattern::new("/w/doc/**").unwrap(),
    ];
    assert!(watchmux::pattern::matches_any(&patterns, "/w/a.rs"));
    assert!(watchmux::pattern::matches_any(&patterns, "/w/doc/deep/x.md"));
    assert!(!watchmux::pattern::matches_any(&patterns, "/w/a.txt"));
    assert!(!watchmux::pattern::matches_any(&Vec::new(), "/w/a.rs"));
}
