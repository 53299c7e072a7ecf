//! The device-probe side: reading a probe's textual verdict and
//! turning one probe cycle over all enumerated disks into registry
//! messages.

use vstd::prelude::*;

use crate::PowerState;
use crate::lsblk::{get_all_disks, EnumerationError, LsblkDiskList};
use crate::metrics::MetricMessage;
use crate::text::{contains_seq, str_contains};

verus! {

/// The probe failed to run or exited abnormally. Fatal to the probe
/// loop; an ambiguous but successful probe result is not an error.
#[derive(Debug)]
pub struct ProbeError {
    pub message: String,
}

/// A power-state probe for one device. The production implementation
/// runs the probe executable; tests substitute fixed results.
pub trait DiskStatus {
    fn get_disk_status(&self, disk: &str) -> Result<PowerState, ProbeError>;
}

/// The production probe: the path of the probe executable to run.
/// The command invocation lives with the process plumbing outside
/// this crate; the verdict text comes back to
/// [`parse_hdparm_output`].
pub struct Hdparm {
    pub path: String,
}

/// The power state that a probe's textual verdict reports: standby
/// when the text mentions "standby", active when it mentions
/// "active/idle", unknown otherwise.
pub open spec fn spec_parse_hdparm(out: Seq<char>) -> PowerState {
    if contains_seq(out, "standby"@) {
        PowerState::Standby
    } else if contains_seq(out, "active/idle"@) {
        PowerState::Active
    } else {
        PowerState::Unknown
    }
}

/// Reads a probe's textual verdict. An unrecognized verdict maps to
/// `Unknown`, never to an error.
pub fn parse_hdparm_output(stdout: &str) -> (r: PowerState)
    ensures
        r == spec_parse_hdparm(stdout@),
{
    if str_contains(stdout, "standby") {
        PowerState::Standby
    } else if str_contains(stdout, "active/idle") {
        PowerState::Active
    } else {
        PowerState::Unknown
    }
}

/// The registry message that one probe outcome warrants: a status
/// update for a known state, nothing for an ambiguous one, and the
/// probe's own error when it failed.
pub fn message_for_probe(disk: String, probe: Result<PowerState, ProbeError>) -> (r: Result<
    Option<MetricMessage>,
    ProbeError,
>)
    ensures
        match probe {
            Ok(state) => if state.is_known() {
                r == Ok::<Option<MetricMessage>, ProbeError>(
                    Some(MetricMessage::DiskStatus { disk, status: state }),
                )
            } else {
                r == Ok::<Option<MetricMessage>, ProbeError>(None)
            },
            Err(e) => r == Err::<Option<MetricMessage>, ProbeError>(e),
        },
{
    match probe {
        Ok(state) => match state {
            PowerState::Unknown => Ok(None),
            _ => Ok(Some(MetricMessage::DiskStatus { disk, status: state })),
        },
        Err(e) => Err(e),
    }
}

/// What stops one probe cycle: the device enumeration failed, or a
/// probe did.
#[derive(Debug)]
pub enum UpdateError {
    Enumeration(EnumerationError),
    Probe(ProbeError),
}

/// One probe cycle: enumerates the rotational disks, probes each in
/// order, and collects a status-update message for every known
/// result. An ambiguous probe result contributes no message; a
/// failed probe or a failed enumeration ends the cycle with its
/// error.
///
/// Whatever the probes answer, every returned message is a
/// device-status update carrying a known state.
pub fn update_disk_status<Q: DiskStatus, L: LsblkDiskList>(disk_query: &Q, lsblk: &L) -> (r:
    Result<Vec<MetricMessage>, UpdateError>)
    ensures
        match r {
            Ok(msgs) => forall|k: int|
                0 <= k < msgs@.len() ==> ((#[trigger] msgs@[k]) matches MetricMessage::DiskStatus {
                    disk: _,
                    status,
                } && status.is_known()),
            Err(_) => true,
        },
{
    let disks = match get_all_disks(lsblk) {
        Ok(d) => d,
        Err(e) => {
            return Err(UpdateError::Enumeration(e));
        },
    };
    let mut msgs: Vec<MetricMessage> = Vec::new();
    let mut i: usize = 0;
    while i < disks.len()
        invariant
            forall|k: int|
                0 <= k < msgs@.len() ==> ((#[trigger] msgs@[k]) matches MetricMessage::DiskStatus {
                    disk: _,
                    status,
                } && status.is_known()),
        decreases disks@.len() - i,
    {
        let disk = disks[i].clone();
        let probe = disk_query.get_disk_status(disk.as_str());
        match message_for_probe(disk, probe) {
            Ok(Some(m)) => {
                msgs.push(m);
            },
            Ok(None) => {},
            Err(e) => {
                return Err(UpdateError::Probe(e));
            },
        }
        i = i + 1;
    }
    Ok(msgs)
}

} // verus!
