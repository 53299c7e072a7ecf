use disk_spin_manager::cli::Args;
use disk_spin_manager::disk_status::{update_disk_status, DiskStatus, Hdparm, ProbeError,
    UpdateError, parse_hdparm_output};
use disk_spin_manager::lsblk::{get_all_disks, EnumerationError, Lsblk, LsblkDiskList};
use disk_spin_manager::metrics::MetricMessage;
use disk_spin_manager::PowerState;

struct FakeLsblk {
    result: String,
}

impl LsblkDiskList for FakeLsblk {
    fn get_disk_list(&self) -> Result<String, EnumerationError> {
        Ok(self.result.clone())
    }
}

struct FailingLsblk {}

impl LsblkDiskList for FailingLsblk {
    fn get_disk_list(&self) -> Result<String, EnumerationError> {
        Err(EnumerationError { message: String::from("lsblk exited with error") })
    }
}

struct FakeHdparm {}

impl DiskStatus for FakeHdparm {
    fn get_disk_status(&self, _disk: &str) -> Result<PowerState, ProbeError> {
        Ok(PowerState::Standby)
    }
}

struct FailingHdparm {}

impl DiskStatus for FailingHdparm {
    fn get_disk_status(&self, _disk: &str) -> Result<PowerState, ProbeError> {
        Err(ProbeError { message: String::from("probe execution error") })
    }
}

fn lsblk_output() -> String {
    String::from(
        r#"
{
   "blockdevices": [
      {
         "name": "sda",
         "type": "disk",
         "rota": true
      },
      {
         "name": "sdb",
         "type": "disk",
         "rota": false
      },
      {
         "name": "sr0",
         "type": "rom",
         "rota": true
      }
   ]
}
"#,
    )
}

#[test]
fn lsblk_it_works() {
    let lsblk_output = r#"
{
   "blockdevices": [
      {
         "name": "sda",
         "type": "disk",
         "rota": true
      },
      {
         "name": "sr0",
         "type": "rom",
         "rota": true
      }
   ]
}
"#;
    let lsblk = FakeLsblk { result: lsblk_output.to_string() };

    let disks = get_all_disks(&lsblk).unwrap();
    assert_eq!(disks, vec!["/dev/sda"]);
}

#[test]
fn disk_status_it_works() {
    let lsblk = FakeLsblk { result: lsblk_output() };
    let disk_query = FakeHdparm {};

    // run a single cycle
    let msgs = update_disk_status(&disk_query, &lsblk).unwrap();

    // inspect the single message it produced
    assert_eq!(msgs.len(), 1);
    if let MetricMessage::DiskStatus { disk, status } = &msgs[0] {
        assert_eq!(disk, "/dev/sda");
        assert_eq!(*status, PowerState::Standby);
    } else {
        panic!("invalid message: {:?}", msgs[0]);
    }
}

#[test]
fn non_rotational_and_non_disk_records_are_excluded() {
    // Only sda is both rotational and of type "disk"; sdb is not
    // rotational and sr0 is a rom, whatever their order.
    let lsblk = FakeLsblk { result: lsblk_output() };
    let disks = get_all_disks(&lsblk).unwrap();
    assert_eq!(disks, vec!["/dev/sda"]);
}

#[test]
fn enumeration_fails_on_invalid_json() {
    let lsblk = FakeLsblk { result: String::from("this is not json") };
    let err = get_all_disks(&lsblk).unwrap_err();
    assert_eq!(err.message, "lsblk output is not valid JSON");
}

#[test]
fn enumeration_fails_on_wrong_shape() {
    let lsblk = FakeLsblk { result: String::from(r#"{"devices": []}"#) };
    let err = get_all_disks(&lsblk).unwrap_err();
    assert_eq!(err.message, "lsblk output is not a device listing");

    let lsblk = FakeLsblk {
        result: String::from(r#"{"blockdevices": [{"name": "sda", "rota": true}]}"#),
    };
    let err = get_all_disks(&lsblk).unwrap_err();
    assert_eq!(err.message, "lsblk output is not a device listing");
}

#[test]
fn enumeration_failure_aborts_the_cycle() {
    let msgs = update_disk_status(&FakeHdparm {}, &FailingLsblk {});
    assert!(matches!(msgs, Err(UpdateError::Enumeration(_))));
}

#[test]
fn probe_failure_aborts_the_cycle() {
    let lsblk = FakeLsblk { result: lsblk_output() };
    let msgs = update_disk_status(&FailingHdparm {}, &lsblk);
    match msgs {
        Err(UpdateError::Probe(e)) => assert_eq!(e.message, "probe execution error"),
        other => panic!("expected a probe error, got {:?}", other.is_ok()),
    }
}

#[test]
fn hdparm_verdicts() {
    assert_eq!(
        parse_hdparm_output("/dev/sda:\n drive state is:  standby\n"),
        PowerState::Standby
    );
    assert_eq!(
        parse_hdparm_output("/dev/sda:\n drive state is:  active/idle\n"),
        PowerState::Active
    );
    // An ambiguous probe text yields Unknown, never an error.
    assert_eq!(parse_hdparm_output("/dev/sda:\n drive state is:  active\n"), PowerState::Unknown);
    assert_eq!(parse_hdparm_output(""), PowerState::Unknown);
    let hdparm = Hdparm { path: String::from("hdparm") };
    assert_eq!(hdparm.path, "hdparm");
}

#[test]
fn args_defaults() {
    let args = Args::default();
    assert_eq!(args.textfile, "/var/lib/node_exporter/textfile_collector/disk_status.prom");
    assert_eq!(args.textfile_interval, 15);
    assert_eq!(args.hdparm, "hdparm");
    assert!(!args.debug);
    assert_eq!(args.refresh_interval, 60);
    assert!(args.watch_directories.is_empty());
}

#[test]
fn lsblk_marker_exists() {
    let _ = Lsblk {};
}
