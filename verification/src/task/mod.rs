pub mod format;
pub mod grid;
pub mod metrics;

use crate::task::metrics::{Cpu, Io, Memory, Pids};
use vstd::prelude::*;

verus! {

/// One reading of a cgroup. For each metric, `None` means it was not
/// requested, `Err` that it was requested but is unavailable (with the
/// reason), and `Ok` a reading.
#[derive(Debug)]
pub struct Stats {
    pub path: String,
    pub cpu: Option<Result<Cpu, String>>,
    pub memory: Option<Result<Memory, String>>,
    pub pids: Option<Result<Pids, String>>,
    pub io: Option<Result<Io, String>>,
}


/// The path a reading is labelled with: the cgroup path relative to the
/// hierarchy root, or `/` for the root itself.
pub fn stats_path(rel: String) -> (r: String)
    ensures
        rel@.len() == 0 ==> r@ == "/"@,
        rel@.len() > 0 ==> r@ == rel@,
{
    if rel.as_str().is_empty() {
        String::from_str("/")
    } else {
        rel
    }
}

/// The error for a host without a unified (v2) cgroup hierarchy: a
/// directory at `/sys/fs/cgroup` means a v1 host, its absence means no
/// cgroup file system at all.
pub fn unsupported_host(sysfs_is_dir: bool) -> (r: String)
    ensures
        sysfs_is_dir ==> r@ == "cgroup v1 not supported (unified/v2 only)"@,
        !sysfs_is_dir ==> r@ == "no cgroup filesystem mounted at /sys/fs/cgroup"@,
{
    if sysfs_is_dir {
        String::from_str("cgroup v1 not supported (unified/v2 only)")
    } else {
        String::from_str("no cgroup filesystem mounted at /sys/fs/cgroup")
    }
}

/// The verdict on the cgroup directory `dir`, given whether it is a
/// directory and whether it holds `cgroup.controllers`: a cgroup only when
/// both hold, and otherwise the error that names the directory.
pub fn cgroup_found(dir: &str, is_dir: bool, has_controllers: bool) -> (r: Result<(), String>)
    ensures
        is_dir && has_controllers <==> r is Ok,
        r matches Err(e) ==> e@ == "cgroup not found: "@ + dir@,
{
    if is_dir && has_controllers {
        Ok(())
    } else {
        let mut e = String::from_str("cgroup not found: ");
        e.append(dir);
        Err(e)
    }
}

} // verus!
