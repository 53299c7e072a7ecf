use disk_spin_manager::metrics::{MetricMessage, Metrics};
use disk_spin_manager::watch::WatchError;
use disk_spin_manager::PowerState;
use disk_spin_manager::exposition::parse_exposition;

fn update(disk: &str, status: PowerState) -> MetricMessage {
    MetricMessage::DiskStatus { disk: String::from(disk), status }
}

fn event() -> MetricMessage {
    MetricMessage::NotifyEvent(Ok(String::from("/watched")))
}

fn gauges_and_counter(metrics: &Metrics) -> (Vec<(String, u64)>, u64) {
    parse_exposition(metrics.serialize().as_str()).unwrap()
}

#[test]
fn unknown_keeps_prior_known_value() {
    let mut metrics = Metrics::new(String::from("disk_status.prom"));
    metrics.handle_metrics_message(update("/dev/sda", PowerState::Active)).unwrap();
    let before = metrics.serialize();

    metrics.handle_metrics_message(update("/dev/sda", PowerState::Unknown)).unwrap();
    let after = metrics.serialize();

    assert_eq!(before, after);
    let (gauges, _) = gauges_and_counter(&metrics);
    assert_eq!(gauges, vec![(String::from("/dev/sda"), 1)]);
}

#[test]
fn unknown_without_prior_value_creates_no_entry() {
    let mut metrics = Metrics::new(String::from("disk_status.prom"));
    metrics.handle_metrics_message(update("/dev/sda", PowerState::Unknown)).unwrap();
    let (gauges, _) = gauges_and_counter(&metrics);
    assert!(gauges.is_empty());
}

#[test]
fn repeated_update_is_idempotent() {
    let mut once = Metrics::new(String::from("disk_status.prom"));
    once.handle_metrics_message(update("/dev/sdb", PowerState::Standby)).unwrap();

    let mut thrice = Metrics::new(String::from("disk_status.prom"));
    for _ in 0..3 {
        thrice.handle_metrics_message(update("/dev/sdb", PowerState::Standby)).unwrap();
    }

    assert_eq!(once.serialize(), thrice.serialize());
}

#[test]
fn interleaving_counts_events_and_keeps_last_update() {
    // Three resolved events interleaved with updates, in an order a
    // scheduler might produce them.
    let mut metrics = Metrics::new(String::from("disk_status.prom"));
    let msgs = vec![
        update("/dev/sda", PowerState::Active),
        event(),
        update("/dev/sdb", PowerState::Active),
        event(),
        update("/dev/sda", PowerState::Standby),
        event(),
    ];
    let outputs = metrics.receive_metrics(msgs).unwrap();
    assert!(outputs.is_empty());

    let (gauges, counter) = gauges_and_counter(&metrics);
    assert_eq!(counter, 3);
    assert_eq!(
        gauges,
        vec![(String::from("/dev/sda"), 0), (String::from("/dev/sdb"), 1)]
    );
}

#[test]
fn save_file_returns_the_snapshot_text() {
    let mut metrics = Metrics::new(String::from("disk_status.prom"));
    metrics.handle_metrics_message(update("/dev/sda", PowerState::Active)).unwrap();
    let out = metrics.handle_metrics_message(MetricMessage::SaveFile).unwrap();
    assert_eq!(out, Some(metrics.serialize()));

    let none = metrics
        .handle_metrics_message(update("/dev/sda", PowerState::Active))
        .unwrap();
    assert!(none.is_none());
}

#[test]
fn watch_error_is_fatal_and_keeps_state() {
    let mut metrics = Metrics::new(String::from("disk_status.prom"));
    metrics.handle_metrics_message(update("/dev/sda", PowerState::Active)).unwrap();
    let before = metrics.serialize();

    let err = metrics
        .handle_metrics_message(MetricMessage::NotifyEvent(Err(WatchError::Notify {
            message: String::from("inotify backend error"),
        })))
        .unwrap_err();
    match err.watch {
        WatchError::Notify { message } => assert_eq!(message, "inotify backend error"),
        other => panic!("unexpected error: {:?}", other),
    }
    assert_eq!(metrics.serialize(), before);
}

#[test]
fn batch_stops_at_the_first_fatal_message() {
    let mut metrics = Metrics::new(String::from("disk_status.prom"));
    let msgs = vec![
        update("/dev/sda", PowerState::Active),
        MetricMessage::SaveFile,
        MetricMessage::NotifyEvent(Err(WatchError::Notify {
            message: String::from("watch backend gone"),
        })),
        // Applied never: the error above ends the loop.
        update("/dev/sda", PowerState::Standby),
        event(),
    ];
    let err = metrics.receive_metrics(msgs).unwrap_err();
    assert!(matches!(err.watch, WatchError::Notify { .. }));

    let (gauges, counter) = gauges_and_counter(&metrics);
    assert_eq!(gauges, vec![(String::from("/dev/sda"), 1)]);
    assert_eq!(counter, 0);
}

#[test]
fn batch_collects_snapshots_in_order() {
    let mut metrics = Metrics::new(String::from("disk_status.prom"));
    let msgs = vec![
        MetricMessage::SaveFile,
        update("/dev/sda", PowerState::Active),
        MetricMessage::SaveFile,
    ];
    let outputs = metrics.receive_metrics(msgs).unwrap();
    assert_eq!(outputs.len(), 2);
    assert!(outputs[0].contains("notify_events 0"));
    assert!(!outputs[0].contains("/dev/sda"));
    assert!(outputs[1].contains("disk_status{disk=\"/dev/sda\"} 1"));
    assert_eq!(outputs[1], metrics.serialize());
}

#[test]
fn textfile_path_is_kept() {
    let metrics = Metrics::new(String::from("/tmp/disk_status.prom"));
    assert_eq!(metrics.textfile().as_str(), "/tmp/disk_status.prom");
}
