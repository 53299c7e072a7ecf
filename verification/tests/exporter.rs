use disk_spin_manager::exposition::parse_exposition;
use disk_spin_manager::metrics::{MetricMessage, Metrics};
use disk_spin_manager::{DiskMonitor, DiskStatus, PowerState, SysfsEntry};

fn update(disk: &str, status: PowerState) -> MetricMessage {
    MetricMessage::DiskStatus { disk: String::from(disk), status }
}

#[test]
fn exposition_text_is_exact() {
    // A registry with /dev/sda in standby and three counted events.
    let mut metrics = Metrics::new(String::from("disk_status.prom"));
    metrics.handle_metrics_message(update("/dev/sda", PowerState::Standby)).unwrap();
    for _ in 0..3 {
        metrics
            .handle_metrics_message(MetricMessage::NotifyEvent(Ok(String::from("/watched"))))
            .unwrap();
    }
    let expected = "# HELP disk_status Status of the disk (1=active, 0=standby)\n\
# TYPE disk_status gauge\n\
disk_status{disk=\"/dev/sda\"} 0\n\
# HELP notify_events Number of events for watched directories\n\
# TYPE notify_events counter\n\
notify_events 3\n";
    assert_eq!(metrics.serialize(), expected);
}

#[test]
fn devices_serialize_sorted_regardless_of_update_order() {
    let mut first_order = Metrics::new(String::from("disk_status.prom"));
    first_order.handle_metrics_message(update("/dev/sda", PowerState::Active)).unwrap();
    first_order.handle_metrics_message(update("/dev/sdb", PowerState::Standby)).unwrap();

    let mut second_order = Metrics::new(String::from("disk_status.prom"));
    second_order.handle_metrics_message(update("/dev/sdb", PowerState::Standby)).unwrap();
    second_order.handle_metrics_message(update("/dev/sda", PowerState::Active)).unwrap();

    let text = first_order.serialize();
    assert_eq!(text, second_order.serialize());

    let sda = text.find("disk_status{disk=\"/dev/sda\"} 1").unwrap();
    let sdb = text.find("disk_status{disk=\"/dev/sdb\"} 0").unwrap();
    assert!(sda < sdb);
}

#[test]
fn serialization_round_trips_through_the_parser() {
    let mut metrics = Metrics::new(String::from("disk_status.prom"));
    metrics.handle_metrics_message(update("/dev/sdc", PowerState::Active)).unwrap();
    metrics.handle_metrics_message(update("/dev/sda", PowerState::Standby)).unwrap();
    metrics.handle_metrics_message(update("/dev/sdb", PowerState::Active)).unwrap();
    for _ in 0..12 {
        metrics
            .handle_metrics_message(MetricMessage::NotifyEvent(Ok(String::from("/w"))))
            .unwrap();
    }

    let (gauges, counter) = parse_exposition(metrics.serialize().as_str()).unwrap();
    assert_eq!(counter, 12);
    assert_eq!(
        gauges,
        vec![
            (String::from("/dev/sda"), 0),
            (String::from("/dev/sdb"), 1),
            (String::from("/dev/sdc"), 1),
        ]
    );
}

#[test]
fn empty_registry_round_trips() {
    let metrics = Metrics::new(String::from("disk_status.prom"));
    let (gauges, counter) = parse_exposition(metrics.serialize().as_str()).unwrap();
    assert!(gauges.is_empty());
    assert_eq!(counter, 0);
}

#[test]
fn parser_rejects_foreign_text() {
    assert!(parse_exposition("").is_none());
    assert!(parse_exposition("# HELP something_else\n").is_none());
    let truncated = "# HELP disk_status Status of the disk (1=active, 0=standby)\n\
# TYPE disk_status gauge\n\
disk_status{disk=\"/dev/sda\"} 0\n";
    assert!(parse_exposition(truncated).is_none());
}

struct FakeHdparm {}

impl DiskStatus for FakeHdparm {
    fn get_disk_status(&self, _disk: &str) -> Option<PowerState> {
        Some(PowerState::Standby)
    }
}

#[test]
fn monitor_cycle_writes_gauge_block() {
    let mut monitor = DiskMonitor::new(String::from("/sys"), String::from("disk_status.prom"));
    let entries = vec![
        // Included: rotating-disk prefix and attribute "1", with
        // whitespace around it.
        SysfsEntry { name: String::from("sda"), rotational: Some(String::from(" 1\n")) },
        // Excluded: attribute reads "0".
        SysfsEntry { name: String::from("sdb"), rotational: Some(String::from("0\n")) },
        // Excluded: attribute missing.
        SysfsEntry { name: String::from("sdc"), rotational: None },
        // Excluded: not a rotating-disk name.
        SysfsEntry { name: String::from("sr0"), rotational: Some(String::from("1\n")) },
    ];
    let text = monitor.update_metrics(&FakeHdparm {}, entries);
    let expected = "# HELP disk_status Status of the disk (1=active, 0=standby)\n\
# TYPE disk_status gauge\n\
disk_status{disk=\"/dev/sda\"} 0\n";
    assert_eq!(text, expected);
    assert_eq!(monitor.sysfs().as_str(), "/sys");
    assert_eq!(monitor.textfile().as_str(), "disk_status.prom");
}

struct SilentProbe {}

impl DiskStatus for SilentProbe {
    fn get_disk_status(&self, _disk: &str) -> Option<PowerState> {
        None
    }
}

#[test]
fn monitor_keeps_gauges_for_unprobed_devices() {
    let mut monitor = DiskMonitor::new(String::from("/sys"), String::from("disk_status.prom"));
    let entry = || vec![
        SysfsEntry { name: String::from("sda"), rotational: Some(String::from("1")) },
    ];
    let first = monitor.update_metrics(&FakeHdparm {}, entry());
    // A later cycle whose probe answers nothing leaves the gauge as
    // it was.
    let second = monitor.update_metrics(&SilentProbe {}, entry());
    assert_eq!(first, second);
}

#[test]
fn large_counter_values_render_in_full() {
    let mut metrics = Metrics::new(String::from("disk_status.prom"));
    for _ in 0..1023 {
        metrics
            .handle_metrics_message(MetricMessage::NotifyEvent(Ok(String::from("/w"))))
            .unwrap();
    }
    assert!(metrics.serialize().ends_with("notify_events 1023\n"));
}
