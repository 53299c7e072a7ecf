//! The configuration surface of the process: plain values handed to
//! the core by the excluded command-line layer.

use vstd::prelude::*;

verus! {

/// The process configuration: where to write the exposition file and
/// how often, which probe executable to run and how often, which
/// directories to watch, and whether to log verbosely.
#[derive(Debug)]
pub struct Args {
    pub textfile: String,
    pub textfile_interval: u64,
    pub hdparm: String,
    pub debug: bool,
    pub refresh_interval: u64,
    pub watch_directories: Vec<String>,
}

impl Default for Args {
    /// The defaults: the conventional collector path for the
    /// exposition file saved every 15 seconds, the probe found on
    /// the search path and run every 60 seconds, no watched
    /// directories, and quiet logging.
    fn default() -> (r: Args)
        ensures
            r.textfile@ == "/var/lib/node_exporter/textfile_collector/disk_status.prom"@,
            r.textfile_interval == 15,
            r.hdparm@ == "hdparm"@,
            !r.debug,
            r.refresh_interval == 60,
            r.watch_directories@.len() == 0,
    {
        Args {
            textfile: String::from_str(
                "/var/lib/node_exporter/textfile_collector/disk_status.prom",
            ),
            textfile_interval: 15,
            hdparm: String::from_str("hdparm"),
            debug: false,
            refresh_interval: 60,
            watch_directories: Vec::new(),
        }
    }
}

} // verus!
