use subgraph_coordinator::manager::RuntimeManager;
use subgraph_coordinator::walker::{Outcome, WalkerError};
use subgraph_coordinator::watcher::{fatal, Decision, Watcher, WatcherState};

fn id(name: &str) -> String {
    name.to_string()
}

#[test]
fn new_manager_hosts_nothing() {
    let manager: RuntimeManager<&str, u32> = RuntimeManager::new();
    assert_eq!(manager.len(), 0);
    assert!(!manager.contains(&id("x")));
    assert!(manager.hosts(&id("x")).is_none());
    assert_eq!(manager.host_count(&id("x")), 0);
}

#[test]
fn added_subgraph_keeps_its_hosts_in_order() {
    let mut manager: RuntimeManager<&str, u32> = RuntimeManager::new();
    assert!(manager.accept_added(id("x"), vec!["first", "second", "third"], 1).is_none());
    assert!(manager.accept_added(id("y"), vec!["only"], 2).is_none());
    assert_eq!(manager.len(), 2);
    assert!(manager.contains(&id("x")));
    assert_eq!(manager.hosts(&id("x")), Some(&vec!["first", "second", "third"]));
    assert_eq!(manager.host_count(&id("x")), 3);
    assert_eq!(manager.host_count(&id("y")), 1);
}

#[test]
fn adding_again_replaces() {
    let mut manager: RuntimeManager<&str, u32> = RuntimeManager::new();
    manager.accept_added(id("x"), vec!["old one", "old two"], 1);
    manager.accept_added(id("y"), vec!["other"], 2);
    let replaced = manager.accept_added(id("x"), vec!["new"], 3).expect("the old entry");
    assert_eq!(replaced.id, "x");
    assert_eq!(replaced.hosts, vec!["old one", "old two"]);
    assert_eq!(replaced.cancel, 1);
    assert_eq!(manager.len(), 2);
    assert_eq!(manager.hosts(&id("x")), Some(&vec!["new"]));
    assert_eq!(manager.hosts(&id("y")), Some(&vec!["other"]));
    let current = manager.accept_removed(&id("x")).expect("the new entry");
    assert_eq!(current.cancel, 3);
}

#[test]
fn removed_subgraph_is_gone() {
    let mut manager: RuntimeManager<&str, u32> = RuntimeManager::new();
    manager.accept_added(id("x"), vec!["a"], 1);
    manager.accept_added(id("y"), vec!["b"], 2);
    manager.accept_added(id("z"), vec!["c"], 3);
    let removed = manager.accept_removed(&id("y")).expect("the entry");
    assert_eq!((removed.id.as_str(), removed.cancel), ("y", 2));
    assert_eq!(removed.hosts, vec!["b"]);
    assert!(!manager.contains(&id("y")));
    assert_eq!(manager.host_count(&id("y")), 0);
    assert_eq!(manager.len(), 2);
    assert_eq!(manager.hosts(&id("x")), Some(&vec!["a"]));
    assert_eq!(manager.hosts(&id("z")), Some(&vec!["c"]));
    assert!(manager.accept_removed(&id("y")).is_none());
    assert_eq!(manager.len(), 2);
}

#[test]
fn watcher_makes_one_walk_at_a_time() {
    let mut watcher = Watcher::new();
    assert_eq!(watcher.state(), WatcherState::Waiting);
    assert_eq!(watcher.on_head_update(false, 2), Decision::Walk);
    assert_eq!(watcher.state(), WatcherState::Walking);
    assert_eq!(watcher.on_head_update(false, 2), Decision::Skip);
    assert_eq!(watcher.on_head_update(false, 2), Decision::Skip);
    assert_eq!(watcher.state(), WatcherState::Walking);
    watcher.on_walk_ended(Outcome::CaughtUp);
    assert_eq!(watcher.state(), WatcherState::Waiting);
    assert_eq!(watcher.on_head_update(false, 2), Decision::Walk);
}

#[test]
fn watcher_skips_a_subgraph_without_hosts() {
    let mut watcher = Watcher::new();
    assert_eq!(watcher.on_head_update(false, 0), Decision::Skip);
    assert_eq!(watcher.state(), WatcherState::Waiting);
}

#[test]
fn watcher_stops_on_cancellation() {
    let mut watcher = Watcher::new();
    assert_eq!(watcher.on_head_update(true, 2), Decision::Terminate);
    assert_eq!(watcher.state(), WatcherState::Stopped);
    assert_eq!(watcher.on_head_update(false, 2), Decision::Terminate);

    let mut walking = Watcher::new();
    walking.on_head_update(false, 1);
    walking.on_walk_ended(Outcome::Cancelled);
    assert_eq!(walking.state(), WatcherState::Stopped);
    assert_eq!(walking.on_head_update(false, 1), Decision::Terminate);
}

#[test]
fn watcher_survives_a_failed_request_and_pauses_on_a_fatal_error() {
    let mut watcher = Watcher::new();
    watcher.on_head_update(false, 1);
    watcher.on_walk_ended(Outcome::Failed(WalkerError::Unavailable));
    assert_eq!(watcher.state(), WatcherState::Waiting);
    assert_eq!(watcher.on_head_update(false, 1), Decision::Walk);
    watcher.on_walk_ended(Outcome::Failed(WalkerError::MissingHead));
    assert_eq!(watcher.state(), WatcherState::Stopped);
    assert_eq!(watcher.on_head_update(false, 1), Decision::Terminate);

    assert!(!fatal(WalkerError::Unavailable));
    assert!(fatal(WalkerError::MissingHead));
    assert!(fatal(WalkerError::NoParent));
    assert!(fatal(WalkerError::UnexpectedResponse));
}

#[test]
fn outcome_without_a_walk_changes_nothing() {
    let mut watcher = Watcher::new();
    watcher.on_walk_ended(Outcome::Cancelled);
    assert_eq!(watcher.state(), WatcherState::Waiting);
}
