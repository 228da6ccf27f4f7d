use watchmux::config::{RegisterError, RegisterRequest};
use watchmux::event::{EventType, RawEvent};
use watchmux::registry::UnregisterError;
use watchmux::roots::{WatchAction, WatchRoots};
use watchmux::service::{Reply, Request, Service};

fn request(uid: usize, cwd: &str, events: &[EventType], patterns: &[&str], ignores: &[&str]) -> RegisterRequest {
    RegisterRequest {
        cwd: cwd.to_string(),
        events: events.to_vec(),
        ignores: ignores.iter().map(|s| s.to_string()).collect(),
        patterns: patterns.iter().map(|s| s.to_string()).collect(),
        uid,
    }
}

fn all_kinds() -> Vec<EventType> {
    vec![EventType::Create, EventType::Change, EventType::Delete]
}

fn open(service: &mut Service, uid: usize, cwd: &str) -> Result<WatchAction, RegisterError> {
    service.register(request(uid, cwd, &all_kinds(), &["**"], &[])).result
}

fn close(service: &mut Service, uid: usize) -> Result<(String, WatchAction), UnregisterError> {
    service.unregister(uid).map(|done| (done.root, done.action))
}

fn add(roots: &mut WatchRoots, path: &str) -> (WatchAction, Vec<String>) {
    let added = roots.add_root(path);
    (added.action, added.absorbed)
}

fn remove(roots: &mut WatchRoots, path: &str) -> (WatchAction, String) {
    let removed = roots.remove_root(path);
    (removed.action, removed.root)
}

fn none() -> Vec<String> {
    Vec::new()
}

#[test]
fn roots_count_references() {
    let mut roots = WatchRoots::new();
    assert_eq!(roots.count("/a"), 0);
    assert!(!roots.is_served("/a"));
    assert_eq!(add(&mut roots, "/a"), (WatchAction::Install, none()));
    assert!(roots.is_served("/a"));
    assert_eq!(add(&mut roots, "/a"), (WatchAction::NoOp, none()));
    assert_eq!(add(&mut roots, "/a"), (WatchAction::NoOp, none()));
    assert_eq!(roots.count("/a"), 3);
    assert_eq!(roots.installed(), vec!["/a".to_string()]);
    assert_eq!(remove(&mut roots, "/a"), (WatchAction::NoOp, "/a".to_string()));
    assert_eq!(remove(&mut roots, "/a"), (WatchAction::NoOp, "/a".to_string()));
    assert_eq!(roots.count("/a"), 1);
    assert_eq!(remove(&mut roots, "/a"), (WatchAction::Uninstall, "/a".to_string()));
    assert_eq!(roots.count("/a"), 0);
    assert!(roots.installed().is_empty());
    assert!(!roots.is_served("/a"));
}

#[test]
fn removing_a_path_that_is_no_root_changes_nothing() {
    let mut roots = WatchRoots::new();
    assert_eq!(remove(&mut roots, "/a"), (WatchAction::NoOp, "/a".to_string()));
    assert_eq!(add(&mut roots, "/a"), (WatchAction::Install, none()));
    assert_eq!(remove(&mut roots, "/b"), (WatchAction::NoOp, "/b".to_string()));
    assert_eq!(remove(&mut roots, "/a/b"), (WatchAction::NoOp, "/a".to_string()));
    assert_eq!(roots.count("/a"), 1);
    assert_eq!(roots.installed(), vec!["/a".to_string()]);
    assert_eq!(remove(&mut roots, "/a"), (WatchAction::Uninstall, "/a".to_string()));
    assert_eq!(remove(&mut roots, "/a"), (WatchAction::NoOp, "/a".to_string()));
}

#[test]
fn unrelated_roots_are_torn_down_on_their_own() {
    let mut roots = WatchRoots::new();
    assert_eq!(add(&mut roots, "/a/b"), (WatchAction::Install, none()));
    assert_eq!(add(&mut roots, "/a/bc"), (WatchAction::Install, none()));
    assert_eq!(add(&mut roots, "/c"), (WatchAction::Install, none()));
    assert_eq!(
        roots.installed(),
        vec!["/a/b".to_string(), "/a/bc".to_string(), "/c".to_string()]
    );
    assert_eq!(remove(&mut roots, "/a/b"), (WatchAction::Uninstall, "/a/b".to_string()));
    assert_eq!(remove(&mut roots, "/c"), (WatchAction::Uninstall, "/c".to_string()));
    assert_eq!(remove(&mut roots, "/a/bc"), (WatchAction::Uninstall, "/a/bc".to_string()));
    assert!(roots.installed().is_empty());
}

#[test]
fn root_below_an_installed_root_needs_no_watch() {
    let mut roots = WatchRoots::new();
    assert_eq!(add(&mut roots, "/a"), (WatchAction::Install, none()));
    assert!(roots.is_served("/a/b"));
    assert!(roots.is_served("/a/b/c"));
    assert!(!roots.is_served("/ab"));
    assert!(!roots.is_served("/"));
    assert_eq!(add(&mut roots, "/a/b"), (WatchAction::NoOp, none()));
    assert_eq!(roots.count("/a/b"), 1);
    assert_eq!(roots.installed(), vec!["/a".to_string()]);
    assert_eq!(remove(&mut roots, "/a/b"), (WatchAction::NoOp, "/a".to_string()));
    assert_eq!(remove(&mut roots, "/a"), (WatchAction::Uninstall, "/a".to_string()));
    assert!(roots.installed().is_empty());
}

#[test]
fn watch_stays_until_the_last_subscription_below_it_has_left() {
    let mut roots = WatchRoots::new();
    assert_eq!(add(&mut roots, "/a"), (WatchAction::Install, none()));
    assert_eq!(add(&mut roots, "/a/b"), (WatchAction::NoOp, none()));
    assert_eq!(add(&mut roots, "/a/c"), (WatchAction::NoOp, none()));
    assert_eq!(remove(&mut roots, "/a"), (WatchAction::NoOp, "/a".to_string()));
    assert_eq!(roots.count("/a"), 0);
    assert_eq!(roots.installed(), vec!["/a".to_string()]);
    assert!(roots.is_served("/a/b"));
    assert_eq!(remove(&mut roots, "/a/b"), (WatchAction::NoOp, "/a".to_string()));
    assert_eq!(remove(&mut roots, "/a/c"), (WatchAction::Uninstall, "/a".to_string()));
    assert!(roots.installed().is_empty());
}

#[test]
fn watch_on_a_root_takes_over_from_watches_below_it() {
    let mut roots = WatchRoots::new();
    assert_eq!(add(&mut roots, "/a/b"), (WatchAction::Install, none()));
    assert_eq!(add(&mut roots, "/x"), (WatchAction::Install, none()));
    assert_eq!(add(&mut roots, "/a/c/d"), (WatchAction::Install, none()));
    assert_eq!(
        add(&mut roots, "/a"),
        (WatchAction::Install, vec!["/a/b".to_string(), "/a/c/d".to_string()])
    );
    assert_eq!(roots.installed(), vec!["/x".to_string(), "/a".to_string()]);
    assert_eq!(remove(&mut roots, "/a"), (WatchAction::NoOp, "/a".to_string()));
    assert_eq!(remove(&mut roots, "/a/b"), (WatchAction::NoOp, "/a".to_string()));
    assert_eq!(remove(&mut roots, "/a/c/d"), (WatchAction::Uninstall, "/a".to_string()));
    assert_eq!(roots.installed(), vec!["/x".to_string()]);
    assert_eq!(remove(&mut roots, "/x"), (WatchAction::Uninstall, "/x".to_string()));
}

#[test]
fn two_subscriptions_on_one_root_share_one_watch() {
    for order in [[1usize, 2], [2, 1]] {
        let mut service = Service::new();
        assert_eq!(open(&mut service, 1, "/proj"), Ok(WatchAction::Install));
        assert_eq!(open(&mut service, 2, "/proj"), Ok(WatchAction::NoOp));
        assert_eq!(service.roots().count("/proj"), 2);
        assert_eq!(close(&mut service, order[0]), Ok(("/proj".to_string(), WatchAction::NoOp)));
        assert_eq!(
            close(&mut service, order[1]),
            Ok(("/proj".to_string(), WatchAction::Uninstall))
        );
        assert_eq!(service.roots().count("/proj"), 0);
        assert!(service.roots().installed().is_empty());
        assert_eq!(service.registry().len(), 0);
    }
}

#[test]
fn closing_the_nested_subscription_first_tears_down_once() {
    let mut service = Service::new();
    assert_eq!(open(&mut service, 1, "/a"), Ok(WatchAction::Install));
    assert_eq!(open(&mut service, 2, "/a/b"), Ok(WatchAction::NoOp));
    assert_eq!(service.roots().installed(), vec!["/a".to_string()]);
    let inner = service.unregister(2).unwrap();
    assert_eq!(inner.cwd, "/a/b");
    assert_eq!(inner.root, "/a");
    assert_eq!(inner.action, WatchAction::NoOp);
    assert_eq!(close(&mut service, 1), Ok(("/a".to_string(), WatchAction::Uninstall)));
    assert!(service.roots().installed().is_empty());
}

#[test]
fn unregistering_twice_reports_not_found_and_counts_once() {
    let mut service = Service::new();
    assert_eq!(open(&mut service, 1, "/proj"), Ok(WatchAction::Install));
    assert_eq!(open(&mut service, 2, "/proj"), Ok(WatchAction::NoOp));
    assert_eq!(close(&mut service, 1), Ok(("/proj".to_string(), WatchAction::NoOp)));
    assert_eq!(close(&mut service, 1), Err(UnregisterError::NotFound));
    assert_eq!(service.roots().count("/proj"), 1);
    assert_eq!(service.registry().len(), 1);
    assert_eq!(close(&mut service, 2), Ok(("/proj".to_string(), WatchAction::Uninstall)));
}

#[test]
fn unregistering_an_unknown_id_changes_nothing() {
    let mut service = Service::new();
    assert_eq!(close(&mut service, 4), Err(UnregisterError::NotFound));
    assert_eq!(open(&mut service, 1, "/proj"), Ok(WatchAction::Install));
    assert_eq!(close(&mut service, 4), Err(UnregisterError::NotFound));
    assert_eq!(service.roots().count("/proj"), 1);
}

#[test]
fn duplicate_id_is_turned_down_and_counts_nothing() {
    let mut service = Service::new();
    assert_eq!(open(&mut service, 1, "/proj"), Ok(WatchAction::Install));
    assert_eq!(open(&mut service, 1, "/other"), Err(RegisterError::DuplicateId));
    assert_eq!(open(&mut service, 1, "/proj"), Err(RegisterError::DuplicateId));
    assert_eq!(service.roots().count("/proj"), 1);
    assert_eq!(service.roots().count("/other"), 0);
    assert_eq!(service.registry().len(), 1);
    assert_eq!(service.registry().snapshot()[0].cwd(), "/proj");
}

#[test]
fn invalid_root_is_turned_down_before_anything_else() {
    let mut service = Service::new();
    assert_eq!(open(&mut service, 1, "/proj"), Ok(WatchAction::Install));
    let reply = service.register(request(1, "relative/dir", &all_kinds(), &["a***"], &[]));
    assert_eq!(reply.result, Err(RegisterError::InvalidRoot));
    assert!(reply.rejected.is_empty());
    assert!(reply.absorbed.is_empty());
    assert_eq!(reply.cwd, "relative/dir");
    assert_eq!(service.registry().len(), 1);
}

#[test]
fn register_reports_dropped_patterns() {
    let mut service = Service::new();
    let reply = service.register(request(1, "/proj", &all_kinds(), &["ok/*", "bad***"], &["[x"]));
    assert_eq!(reply.result, Ok(WatchAction::Install));
    assert_eq!(reply.cwd, "/proj");
    assert_eq!(reply.rejected, vec!["/proj/bad***".to_string(), "/proj/[x".to_string()]);
    let again = service.register(request(1, "/proj", &all_kinds(), &["bad***"], &[]));
    assert_eq!(again.result, Err(RegisterError::DuplicateId));
    assert_eq!(again.rejected, vec!["/proj/bad***".to_string()]);
}

#[test]
fn apply_answers_each_kind_of_request() {
    let mut service = Service::new();
    match service.apply(Request::Register(request(3, "/proj", &all_kinds(), &["*"], &[]))) {
        Reply::Register(reply) => assert_eq!(reply.result, Ok(WatchAction::Install)),
        Reply::Unregister(_) => panic!("a register request was answered as an unregister"),
    }
    match service.apply(Request::Unregister(3)) {
        Reply::Unregister(Ok(done)) => {
            assert_eq!(done.cwd, "/proj");
            assert_eq!(done.action, WatchAction::Uninstall);
        }
        _ => panic!("the subscription was not found"),
    }
    match service.apply(Request::Unregister(3)) {
        Reply::Unregister(Err(e)) => assert_eq!(e, UnregisterError::NotFound),
        _ => panic!("the subscription was found twice"),
    }
}

#[test]
fn filtering_by_include_and_ignore_patterns() {
    let mut service = Service::new();
    let reply = service.register(request(1, "/w", &[EventType::Create], &["*.txt"], &["tmp/*"]));
    assert_eq!(reply.result, Ok(WatchAction::Install));
    assert_eq!(
        service.event_handler(&vec![RawEvent::Create("/w/notes.txt".to_string())]),
        vec!["1:create:notes.txt".to_string(), "<flush>".to_string()]
    );
    assert!(service
        .event_handler(&vec![RawEvent::Create("/w/tmp/notes.txt".to_string())])
        .is_empty());
    assert!(service
        .event_handler(&vec![RawEvent::Create("/w/notes.md".to_string())])
        .is_empty());
}

#[test]
fn end_to_end_register_then_events() {
    let mut service = Service::new();
    let reply = service.register(request(
        1,
        "/proj",
        &[EventType::Create, EventType::Delete],
        &["src/**"],
        &[],
    ));
    assert_eq!(reply.result, Ok(WatchAction::Install));
    assert_eq!(
        service.event_handler(&vec![RawEvent::Create("/proj/src/a.rs".to_string())]),
        vec!["1:create:src/a.rs".to_string(), "<flush>".to_string()]
    );
    assert!(service
        .event_handler(&vec![RawEvent::Create("/proj/docs/x.md".to_string())])
        .is_empty());
}

#[test]
fn batch_without_matches_writes_nothing() {
    let mut service = Service::new();
    assert!(service.event_handler(&vec![RawEvent::Create("/proj/a".to_string())]).is_empty());
    assert_eq!(open(&mut service, 1, "/proj"), Ok(WatchAction::Install));
    assert!(service.event_handler(&Vec::new()).is_empty());
    assert!(service.event_handler(&vec![RawEvent::Other("/proj/a".to_string())]).is_empty());
    assert!(service.event_handler(&vec![RawEvent::Create("/elsewhere/a".to_string())]).is_empty());
}

#[test]
fn batch_with_matches_ends_with_one_flush_mark() {
    let mut service = Service::new();
    assert_eq!(open(&mut service, 1, "/proj"), Ok(WatchAction::Install));
    let out = service.event_handler(&vec![
        RawEvent::Create("/proj/a".to_string()),
        RawEvent::Other("/proj/skipped".to_string()),
        RawEvent::Modify("/proj/b".to_string()),
        RawEvent::Remove("/proj/c".to_string()),
    ]);
    assert_eq!(
        out,
        vec![
            "1:create:a".to_string(),
            "1:change:b".to_string(),
            "1:delete:c".to_string(),
            "<flush>".to_string(),
        ]
    );
    assert_eq!(out.iter().filter(|line| line.as_str() == "<flush>").count(), 1);
}

#[test]
fn lines_go_by_event_then_by_ascending_id() {
    let mut service = Service::new();
    assert_eq!(open(&mut service, 20, "/proj"), Ok(WatchAction::Install));
    assert_eq!(open(&mut service, 3, "/proj/sub"), Ok(WatchAction::NoOp));
    assert_eq!(open(&mut service, 11, "/proj"), Ok(WatchAction::NoOp));
    let out = service.event_handler(&vec![
        RawEvent::RenameBoth("/proj/sub/old".to_string(), "/proj/new".to_string()),
        RawEvent::RenameTo("/proj/sub/in".to_string()),
    ]);
    assert_eq!(
        out,
        vec![
            "3:delete:old".to_string(),
            "11:delete:sub/old".to_string(),
            "20:delete:sub/old".to_string(),
            "11:create:new".to_string(),
            "20:create:new".to_string(),
            "3:create:in".to_string(),
            "11:create:sub/in".to_string(),
            "20:create:sub/in".to_string(),
            "3:change:in".to_string(),
            "11:change:sub/in".to_string(),
            "20:change:sub/in".to_string(),
            "<flush>".to_string(),
        ]
    );
}

#[test]
fn closed_subscription_hears_nothing_more() {
    let mut service = Service::new();
    assert_eq!(open(&mut service, 1, "/proj"), Ok(WatchAction::Install));
    assert_eq!(open(&mut service, 2, "/proj"), Ok(WatchAction::NoOp));
    assert_eq!(close(&mut service, 1), Ok(("/proj".to_string(), WatchAction::NoOp)));
    assert_eq!(
        service.event_handler(&vec![RawEvent::Create("/proj/a".to_string())]),
        vec!["2:create:a".to_string(), "<flush>".to_string()]
    );
}

#[test]
fn registering_above_takes_over_and_tears_down_once() {
    let mut service = Service::new();
    assert_eq!(open(&mut service, 1, "/a/b"), Ok(WatchAction::Install));
    let upper = service.register(request(2, "/a", &all_kinds(), &["**"], &[]));
    assert_eq!(upper.result, Ok(WatchAction::Install));
    assert_eq!(upper.absorbed, vec!["/a/b".to_string()]);
    assert_eq!(service.roots().installed(), vec!["/a".to_string()]);
    assert_eq!(close(&mut service, 2), Ok(("/a".to_string(), WatchAction::NoOp)));
    assert_eq!(close(&mut service, 1), Ok(("/a".to_string(), WatchAction::Uninstall)));
    assert!(service.roots().installed().is_empty());
}

#[test]
fn registration_is_undone_by_unregistering() {
    let mut service = Service::new();
    assert_eq!(open(&mut service, 1, "/a"), Ok(WatchAction::Install));
    assert_eq!(open(&mut service, 2, "/b"), Ok(WatchAction::Install));
    assert!(close(&mut service, 2).is_ok());
    assert_eq!(service.registry().len(), 1);
    assert_eq!(service.roots().count("/a"), 1);
    assert_eq!(service.roots().count("/b"), 0);
}

#[test]
fn diagnostics_name_the_subscription() {
    assert_eq!(RegisterError::DuplicateId.message(7), "watcher with ID 7 already exists");
    assert_eq!(
        RegisterError::InvalidRoot.message(12),
        "watcher with ID 12 has no canonical root directory"
    );
    assert_eq!(UnregisterError::NotFound.message(305), "watcher with ID 305 not found");
}

#[test]
fn closing_the_outer_subscription_first_tears_down_once() {
    let mut service = Service::new();
    assert_eq!(open(&mut service, 1, "/a"), Ok(WatchAction::Install));
    assert_eq!(open(&mut service, 2, "/a/b"), Ok(WatchAction::NoOp));
    assert_eq!(close(&mut service, 1), Ok(("/a".to_string(), WatchAction::NoOp)));
    assert_eq!(service.roots().installed(), vec!["/a".to_string()]);
    assert_eq!(
        service.event_handler(&vec![RawEvent::Create("/a/b/x".to_string())]),
        vec!["2:create:x".to_string(), "<flush>".to_string()]
    );
    let inner = service.unregister(2).unwrap();
    assert_eq!(inner.cwd, "/a/b");
    assert_eq!(inner.root, "/a");
    assert_eq!(inner.action, WatchAction::Uninstall);
    assert!(service.roots().installed().is_empty());
}
