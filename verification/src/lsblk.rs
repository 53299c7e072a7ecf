//! Device enumeration through the system block-device listing
//! helper: its JSON output is parsed and filtered down to the
//! rotational disks this system monitors.

use vstd::prelude::*;

use crate::text::str_eq;

verus! {

/// One record of the block-device listing: device name, device
/// type, and the rotational flag.
#[derive(Debug)]
pub struct DeviceRecord {
    pub name: String,
    pub disk_type: String,
    pub rota: bool,
}

/// The error of device enumeration: the listing helper failed or
/// its output was not of the expected shape. Fatal to the probe
/// cycle that asked for it.
#[derive(Debug)]
pub struct EnumerationError {
    pub message: String,
}

/// A source of the block-device listing, as the helper's raw JSON
/// text. The production implementation runs the listing command;
/// tests substitute a fixed string.
pub trait LsblkDiskList {
    fn get_disk_list(&self) -> Result<String, EnumerationError>;
}

/// Marker for the production listing source, which runs the system
/// helper; the command invocation lives with the process plumbing
/// outside this crate.
pub struct Lsblk {}

/// A record names a rotational disk: its type is "disk" and its
/// rotational flag is set.
pub open spec fn spec_device_included(r: DeviceRecord) -> bool {
    r.rota && r.disk_type@ == "disk"@
}

/// The device-file path of a named block device.
pub open spec fn spec_device_path(name: Seq<char>) -> Seq<char> {
    "/dev/"@ + name
}

/// The device paths of the rotational disks among `rs`, in record
/// order.
pub open spec fn spec_filter_devices(rs: Seq<DeviceRecord>) -> Seq<Seq<char>>
    decreases rs.len(),
{
    if rs.len() == 0 {
        Seq::empty()
    } else {
        spec_filter_devices(rs.drop_last()) + (if spec_device_included(rs.last()) {
            seq![spec_device_path(rs.last().name@)]
        } else {
            Seq::empty()
        })
    }
}

/// The index of the listing record that produced the `j`-th entry
/// of the filtered output.
pub open spec fn filter_source_index(rs: Seq<DeviceRecord>, j: int) -> int
    decreases rs.len(),
{
    if rs.len() == 0 {
        0
    } else if j < spec_filter_devices(rs.drop_last()).len() {
        filter_source_index(rs.drop_last(), j)
    } else {
        rs.len() - 1
    }
}

/// Only rotational-disk records appear in the filtered output, and
/// every rotational-disk record does: entries with any other type or
/// with the rotational flag unset are excluded, wherever they stand.
pub proof fn lemma_filter_devices_characterizes(rs: Seq<DeviceRecord>)
    ensures
        forall|j: int|
            0 <= j < spec_filter_devices(rs).len() ==> 0 <= #[trigger] filter_source_index(rs, j)
                < rs.len() && spec_device_included(rs[filter_source_index(rs, j)])
                && spec_filter_devices(rs)[j] == spec_device_path(
                rs[filter_source_index(rs, j)].name@,
            ),
        forall|i: int|
            0 <= i < rs.len() && spec_device_included(#[trigger] rs[i])
                ==> spec_filter_devices(rs).contains(spec_device_path(rs[i].name@)),
    decreases rs.len(),
{
    if rs.len() > 0 {
        lemma_filter_devices_characterizes(rs.drop_last());
        let out = spec_filter_devices(rs);
        let prev = spec_filter_devices(rs.drop_last());
        assert(forall|k: int|
            0 <= k < rs.drop_last().len() ==> #[trigger] rs.drop_last()[k] == rs[k]);
        assert forall|j: int| 0 <= j < spec_filter_devices(rs).len() implies 0
            <= #[trigger] filter_source_index(rs, j) < rs.len() && spec_device_included(
            rs[filter_source_index(rs, j)],
        ) && spec_filter_devices(rs)[j] == spec_device_path(
            rs[filter_source_index(rs, j)].name@,
        ) by {
            if j < prev.len() {
                assert(out[j] == prev[j]);
                let i = filter_source_index(rs.drop_last(), j);
                assert(filter_source_index(rs, j) == i);
                assert(prev[j] == spec_device_path(rs.drop_last()[i].name@));
            } else {
                assert(spec_device_included(rs.last()));
                assert(filter_source_index(rs, j) == rs.len() - 1);
                assert(out[j] == spec_device_path(rs[rs.len() - 1].name@));
            }
        }
        assert forall|i: int|
            0 <= i < rs.len() && spec_device_included(#[trigger] rs[i]) implies spec_filter_devices(
            rs,
        ).contains(spec_device_path(rs[i].name@)) by {
            if i < rs.len() - 1 {
                assert(rs.drop_last()[i] == rs[i]);
                assert(prev.contains(spec_device_path(rs[i].name@)));
                let j = choose|j: int|
                    0 <= j < prev.len() && prev[j] == spec_device_path(rs[i].name@);
                assert(out[j] == spec_device_path(rs[i].name@));
            } else {
                assert(out[out.len() - 1] == spec_device_path(rs[i].name@));
            }
        }
    } else {
        assert(spec_filter_devices(rs) =~= Seq::<Seq<char>>::empty());
    }
}

/// Filters the listing records down to the rotational disks and
/// renders each as its device-file path.
pub fn filter_devices(records: &Vec<DeviceRecord>) -> (out: Vec<String>)
    ensures
        out.deep_view() == spec_filter_devices(records@),
{
    let mut out: Vec<String> = Vec::new();
    let mut i: usize = 0;
    proof {
        assert(records@.take(0) =~= Seq::<DeviceRecord>::empty());
        assert(out.deep_view() =~= spec_filter_devices(records@.take(0)));
    }
    while i < records.len()
        invariant
            i <= records@.len(),
            out.deep_view() == spec_filter_devices(records@.take(i as int)),
        decreases records@.len() - i,
    {
        let record = &records[i];
        if record.rota && str_eq(record.disk_type.as_str(), "disk") {
            let mut path = String::from_str("/dev/");
            path.append(record.name.as_str());
            out.push(path);
        }
        proof {
            let taken = records@.take(i + 1);
            assert(taken.drop_last() =~= records@.take(i as int));
            assert(taken.last() == records@[i as int]);
            assert(out.deep_view() =~= spec_filter_devices(taken));
        }
        i = i + 1;
    }
    proof {
        assert(records@.take(records@.len() as int) =~= records@);
    }
    out
}

/// serde_json's JSON value, held opaquely while verified code walks
/// it through the accessors below.
#[verifier::external_type_specification]
#[verifier::external_body]
pub struct ExJsonValue(serde_json::Value);

/// Relies on serde_json::from_str::<Value>: parses text as a JSON
/// document, or fails when the text is not valid JSON.
#[verifier::external_body]
fn parse_json(s: &str) -> Option<serde_json::Value> {
    serde_json::from_str(s).ok()
}

/// Relies on serde_json::Value::get: the value under a key when
/// this value is an object holding that key.
#[verifier::external_body]
fn json_get<'a>(v: &'a serde_json::Value, key: &str) -> Option<&'a serde_json::Value> {
    v.get(key)
}

/// Relies on serde_json::Value::as_array: the elements when this
/// value is an array.
#[verifier::external_body]
fn json_as_array<'a>(v: &'a serde_json::Value) -> Option<&'a Vec<serde_json::Value>> {
    v.as_array()
}

/// Relies on serde_json::Value::as_str: the text when this value is
/// a string.
#[verifier::external_body]
fn json_as_str(v: &serde_json::Value) -> Option<String> {
    match v.as_str() {
        Some(s) => Some(s.to_string()),
        None => None,
    }
}

/// Relies on serde_json::Value::as_bool: the boolean when this
/// value is one.
#[verifier::external_body]
fn json_as_bool(v: &serde_json::Value) -> Option<bool> {
    v.as_bool()
}

/// Reads one listing record out of its JSON object; fails when a
/// field is missing or has the wrong type.
fn extract_record(v: &serde_json::Value) -> Option<DeviceRecord> {
    let name = match json_get(v, "name") {
        Some(f) => match json_as_str(f) {
            Some(s) => s,
            None => {
                return None;
            },
        },
        None => {
            return None;
        },
    };
    let disk_type = match json_get(v, "type") {
        Some(f) => match json_as_str(f) {
            Some(s) => s,
            None => {
                return None;
            },
        },
        None => {
            return None;
        },
    };
    let rota = match json_get(v, "rota") {
        Some(f) => match json_as_bool(f) {
            Some(b) => b,
            None => {
                return None;
            },
        },
        None => {
            return None;
        },
    };
    Some(DeviceRecord { name, disk_type, rota })
}

/// Reads the whole listing out of its JSON document: the records
/// under "blockdevices". Fails when the document has another shape.
fn extract_records(v: &serde_json::Value) -> Option<Vec<DeviceRecord>> {
    let devices = match json_get(v, "blockdevices") {
        Some(d) => d,
        None => {
            return None;
        },
    };
    let arr = match json_as_array(devices) {
        Some(a) => a,
        None => {
            return None;
        },
    };
    let mut records: Vec<DeviceRecord> = Vec::new();
    let mut i: usize = 0;
    while i < arr.len()
        decreases arr@.len() - i,
    {
        match extract_record(&arr[i]) {
            Some(r) => records.push(r),
            None => {
                return None;
            },
        }
        i = i + 1;
    }
    Some(records)
}

/// Enumerates the rotational disks: asks the listing source for its
/// JSON output, parses it, and filters the records.
///
/// Whatever listing comes back, every device in the output is the
/// path of a record whose type is "disk" and whose rotational flag
/// is set. Fails when the listing source fails or its output cannot
/// be read as a device listing.
pub fn get_all_disks<L: LsblkDiskList>(lsblk: &L) -> (r: Result<Vec<String>, EnumerationError>)
    ensures
        match r {
            Ok(out) => exists|recs: Seq<DeviceRecord>|
                out.deep_view() == #[trigger] spec_filter_devices(recs),
            Err(_) => true,
        },
{
    let text = match lsblk.get_disk_list() {
        Ok(t) => t,
        Err(e) => {
            return Err(e);
        },
    };
    let parsed = match parse_json(text.as_str()) {
        Some(v) => v,
        None => {
            return Err(
                EnumerationError { message: String::from_str("lsblk output is not valid JSON") },
            );
        },
    };
    let records = match extract_records(&parsed) {
        Some(rs) => rs,
        None => {
            return Err(
                EnumerationError {
                    message: String::from_str("lsblk output is not a device listing"),
                },
            );
        },
    };
    let out = filter_devices(&records);
    proof {
        assert(out.deep_view() == spec_filter_devices(records@));
    }
    Ok(out)
}

} // verus!
