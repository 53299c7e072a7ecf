//! Monitoring of rotational-disk power states, with a verified
//! metrics registry and textual exposition-format exporter.
//!
//! The crate models the aggregation core of a disk spin-state
//! monitor: a registry of per-device gauges and one event counter,
//! a message-driven state machine that updates it, a resolver that
//! attributes filesystem events to configured watched roots, and a
//! deterministic serializer for the exposition text format.

pub mod cli;
pub mod disk_status;
pub mod exposition;
pub mod lsblk;
pub mod metrics;
pub mod registry;
pub mod text;
pub mod watch;

use vstd::prelude::*;

use crate::exposition::{render_gauges, spec_gauge_block};
use crate::registry::{entries_map, sorted_entries, GaugeFamily};
use crate::text::{is_prefix, spec_trim, str_eq, str_starts_with, trim};

verus! {

/// A device's power state as reported by a probe.
///
/// `Unknown` stands for an ambiguous but successful probe result;
/// it never overwrites a previously known state in the registry.
#[derive(Clone, Copy, Debug, PartialEq, Eq, Structural)]
pub enum PowerState {
    Active,
    Standby,
    Unknown,
}

impl PowerState {
    /// The numeric gauge value of a known state: 1 for `Active`,
    /// 0 for `Standby`. `Unknown` carries no value.
    pub open spec fn spec_gauge_value(self) -> Option<u64> {
        match self {
            PowerState::Active => Some(1u64),
            PowerState::Standby => Some(0u64),
            PowerState::Unknown => None,
        }
    }

    /// True for the states that carry a numeric gauge value.
    pub open spec fn is_known(self) -> bool {
        self != PowerState::Unknown
    }

    /// Numeric gauge value of a known state.
    pub fn gauge_value(self) -> (r: Option<u64>)
        ensures
            r == self.spec_gauge_value(),
    {
        match self {
            PowerState::Active => Some(1u64),
            PowerState::Standby => Some(0u64),
            PowerState::Unknown => None,
        }
    }
}

/// A power-state probe answering with a state directly, the form the
/// standalone monitor consumes. The production implementation runs
/// the probe executable; tests substitute fixed results.
pub trait DiskStatus {
    fn get_disk_status(&self, disk: &str) -> Option<PowerState>;
}

/// Marker for the production probe of the standalone monitor, which
/// runs the probe executable found on the search path.
pub struct Hdparm {}

/// One entry of the system block-device attribute tree: the entry's
/// base name and the content of its rotational-flag attribute, if
/// that attribute could be read.
pub struct SysfsEntry {
    pub name: String,
    pub rotational: Option<String>,
}

/// An attribute-tree entry names a rotational disk: its base name
/// carries the platform's rotating-disk prefix and its
/// rotational-flag attribute reads exactly "1" after trimming
/// whitespace. Any other value, or a missing attribute, excludes the
/// entry without error.
pub open spec fn spec_sysfs_included(e: SysfsEntry) -> bool {
    is_prefix("sd"@, e.name@) && match e.rotational {
        Some(a) => spec_trim(a@) == "1"@,
        None => false,
    }
}

/// The device-file paths of the rotational disks among the
/// attribute-tree entries, in entry order.
pub open spec fn spec_select_sysfs(es: Seq<SysfsEntry>) -> Seq<Seq<char>>
    decreases es.len(),
{
    if es.len() == 0 {
        Seq::empty()
    } else {
        spec_select_sysfs(es.drop_last()) + (if spec_sysfs_included(es.last()) {
            seq![crate::lsblk::spec_device_path(es.last().name@)]
        } else {
            Seq::empty()
        })
    }
}

/// Filters the attribute-tree entries down to the rotational disks
/// and renders each as its device-file path.
pub fn select_sysfs_disks(entries: &Vec<SysfsEntry>) -> (out: Vec<String>)
    ensures
        out.deep_view() == spec_select_sysfs(entries@),
{
    let mut out: Vec<String> = Vec::new();
    let mut i: usize = 0;
    proof {
        assert(entries@.take(0) =~= Seq::<SysfsEntry>::empty());
        assert(out.deep_view() =~= spec_select_sysfs(entries@.take(0)));
    }
    while i < entries.len()
        invariant
            i <= entries@.len(),
            out.deep_view() == spec_select_sysfs(entries@.take(i as int)),
        decreases entries@.len() - i,
    {
        let entry = &entries[i];
        let included = str_starts_with(entry.name.as_str(), "sd") && match &entry.rotational {
            Some(a) => str_eq(trim(a.as_str()), "1"),
            None => false,
        };
        if included {
            let mut path = String::from_str("/dev/");
            path.append(entry.name.as_str());
            out.push(path);
        }
        proof {
            let taken = entries@.take(i + 1);
            assert(taken.drop_last() =~= entries@.take(i as int));
            assert(taken.last() == entries@[i as int]);
            assert(out.deep_view() =~= spec_select_sysfs(taken));
        }
        i = i + 1;
    }
    proof {
        assert(entries@.take(entries@.len() as int) =~= entries@);
    }
    out
}

/// The standalone monitor: its own gauge family, the root of the
/// attribute tree it scans, and the destination path of its
/// exposition file. A fuller, message-driven core lives in
/// [`metrics::Metrics`].
pub struct DiskMonitor {
    disk_status: GaugeFamily,
    sysfs: String,
    textfile: String,
}

impl DiskMonitor {
    /// The monitor's gauge entries.
    pub closed spec fn gauges(&self) -> Seq<(Seq<char>, u64)> {
        self.disk_status@
    }

    /// The monitor's gauge family as a map.
    pub open spec fn gauge_map(&self) -> Map<Seq<char>, u64> {
        entries_map(self.gauges())
    }

    /// The configured root of the attribute tree.
    pub closed spec fn spec_sysfs(&self) -> Seq<char> {
        self.sysfs@
    }

    /// The configured destination path of the exposition file.
    pub closed spec fn spec_textfile(&self) -> Seq<char> {
        self.textfile@
    }

    /// The gauge entries are strictly sorted by device identifier.
    pub open spec fn wf(&self) -> bool {
        sorted_entries(self.gauges())
    }

    /// Creates a monitor with no gauge entries.
    pub fn new(sysfs: String, textfile: String) -> (r: DiskMonitor)
        ensures
            r.wf(),
            r.gauges() == Seq::<(Seq<char>, u64)>::empty(),
            r.spec_sysfs() == sysfs@,
            r.spec_textfile() == textfile@,
    {
        DiskMonitor { disk_status: GaugeFamily::new(), sysfs, textfile }
    }

    /// The configured root of the attribute tree, for the caller
    /// that scans it.
    pub fn sysfs(&self) -> (r: &String)
        ensures
            r@ == self.spec_sysfs(),
    {
        &self.sysfs
    }

    /// The configured destination path, for the caller that writes
    /// the exposition file.
    pub fn textfile(&self) -> (r: &String)
        ensures
            r@ == self.spec_textfile(),
    {
        &self.textfile
    }

    /// One update cycle of the standalone monitor: selects the
    /// rotational disks among the attribute-tree entries, probes
    /// each, records every known state, and returns the serialized
    /// gauge family for the caller to write out.
    ///
    /// Whatever the probes answer, a device that the entries do not
    /// select keeps its gauge unchanged.
    pub fn update_metrics<Q: DiskStatus>(&mut self, disk_query: &Q, entries: Vec<SysfsEntry>) -> (
        text: String)
        requires
            old(self).wf(),
        ensures
            final(self).wf(),
            final(self).spec_sysfs() == old(self).spec_sysfs(),
            final(self).spec_textfile() == old(self).spec_textfile(),
            text@ == spec_gauge_block(final(self).gauges()),
            forall|d: Seq<char>|
                !spec_select_sysfs(entries@).contains(d) ==> final(self).gauge_map().contains_key(
                    d,
                ) == old(self).gauge_map().contains_key(d) && (old(
                    self,
                ).gauge_map().contains_key(d) ==> final(self).gauge_map()[d] == old(
                    self,
                ).gauge_map()[d]),
            forall|d: Seq<char>|
                #[trigger] final(self).gauge_map().contains_key(d)
                    ==> old(self).gauge_map().contains_key(d) || spec_select_sysfs(
                    entries@,
                ).contains(d),
            forall|d: Seq<char>|
                (#[trigger] final(self).gauge_map().contains_key(d) && !(old(self).gauge_map().contains_key(
                    d,
                ) && final(self).gauge_map()[d] == old(self).gauge_map()[d])) ==> final(self).gauge_map()[d]
                    == 0 || final(self).gauge_map()[d] == 1,
    {
        let disks = select_sysfs_disks(&entries);
        let ghost selected = spec_select_sysfs(entries@);
        let ghost orig_map = self.gauge_map();
        let mut i: usize = 0;
        while i < disks.len()
            invariant
                self.wf(),
                self.spec_sysfs() == old(self).spec_sysfs(),
                self.spec_textfile() == old(self).spec_textfile(),
                disks.deep_view() == selected,
                forall|d: Seq<char>|
                    !selected.contains(d) ==> self.gauge_map().contains_key(d)
                        == orig_map.contains_key(d) && (orig_map.contains_key(d)
                        ==> self.gauge_map()[d] == orig_map[d]),
                forall|d: Seq<char>|
                    #[trigger] self.gauge_map().contains_key(d) ==> orig_map.contains_key(d)
                        || selected.contains(d),
                forall|d: Seq<char>|
                    (#[trigger] self.gauge_map().contains_key(d) && !(orig_map.contains_key(d)
                        && self.gauge_map()[d] == orig_map[d])) ==> self.gauge_map()[d] == 0
                        || self.gauge_map()[d] == 1,
            decreases disks@.len() - i,
        {
            let disk = &disks[i];
            let ghost pre_map = self.gauge_map();
            match disk_query.get_disk_status(disk.as_str()) {
                Some(state) => match state.gauge_value() {
                    Some(value) => {
                        self.disk_status.set(disk.as_str(), value);
                        proof {
                            assert(selected.contains(disk@)) by {
                                assert(selected[i as int] == disks@[i as int]@);
                            }
                            assert(self.gauge_map() == pre_map.insert(disk@, value));
                            assert forall|d: Seq<char>|
                                (#[trigger] self.gauge_map().contains_key(d) && !(
                                orig_map.contains_key(d) && self.gauge_map()[d] == orig_map[d]))
                                implies self.gauge_map()[d] == 0 || self.gauge_map()[d]
                                == 1 by {
                                if d != disk@ {
                                    assert(self.gauge_map()[d] == pre_map[d]);
                                }
                            }
                        }
                    },
                    None => {},
                },
                None => {},
            }
            i = i + 1;
        }
        render_gauges(&self.disk_status)
    }
}

} // verus!
