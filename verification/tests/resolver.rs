use disk_spin_manager::metrics::MetricMessage;
use disk_spin_manager::watch::{handle_notify_event, match_base_path, WatchError};

fn strings(items: &[&str]) -> Vec<String> {
    items.iter().map(|s| String::from(*s)).collect()
}

#[test]
fn resolves_to_containing_root() {
    let roots = strings(&["/a", "/b"]);
    let paths = strings(&["/a/x.txt"]);
    assert_eq!(match_base_path(&roots, &paths).unwrap(), "/a");
}

#[test]
fn fails_outside_all_roots() {
    let roots = strings(&["/a", "/b"]);
    let paths = strings(&["/c/x.txt"]);
    let err = match_base_path(&roots, &paths).unwrap_err();
    assert_eq!(err.paths, paths);
    assert_eq!(err.base_paths, roots);
}

#[test]
fn first_root_in_configuration_order_wins() {
    // Both roots contain a path; the first configured one is the
    // answer, whatever order the paths arrive in.
    let roots = strings(&["/a", "/b"]);
    let paths = strings(&["/b/y.txt", "/a/x.txt"]);
    assert_eq!(match_base_path(&roots, &paths).unwrap(), "/a");
}

#[test]
fn containment_is_by_path_components() {
    // "/ab" does not lie within "/a": containment follows path
    // components, not character prefixes.
    let roots = strings(&["/a"]);
    assert!(match_base_path(&roots, &strings(&["/ab"])).is_err());
    assert_eq!(match_base_path(&roots, &strings(&["/a"])).unwrap(), "/a");
    assert_eq!(match_base_path(&roots, &strings(&["/a/b/c"])).unwrap(), "/a");
}

#[test]
fn resolved_event_becomes_a_counted_message() {
    let roots = strings(&["/a", "/b"]);
    let msg = handle_notify_event(&roots, Ok(strings(&["/b/z"])));
    match msg {
        MetricMessage::NotifyEvent(Ok(root)) => assert_eq!(root, "/b"),
        other => panic!("unexpected message: {:?}", other),
    }
}

#[test]
fn unresolved_event_becomes_a_fatal_message() {
    let roots = strings(&["/a"]);
    let msg = handle_notify_event(&roots, Ok(strings(&["/elsewhere"])));
    match msg {
        MetricMessage::NotifyEvent(Err(WatchError::Resolution(e))) => {
            assert_eq!(e.paths, vec!["/elsewhere"]);
            assert_eq!(e.base_paths, vec!["/a"]);
        },
        other => panic!("unexpected message: {:?}", other),
    }
}

#[test]
fn watch_runtime_error_is_passed_through() {
    let roots = strings(&["/a"]);
    let msg = handle_notify_event(&roots, Err(String::from("backend closed")));
    match msg {
        MetricMessage::NotifyEvent(Err(WatchError::Notify { message })) => {
            assert_eq!(message, "backend closed");
        },
        other => panic!("unexpected message: {:?}", other),
    }
}
