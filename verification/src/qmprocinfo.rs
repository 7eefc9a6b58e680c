//! Processes for the first-generation client tracking: identity only, no
//! CPU accounting.
use vstd::prelude::*;

use crate::devnum::{spec_dev_minor, spec_is_drm_char_dev};
use crate::fdinfo::{spec_parse_fdinfo, FdinfoModel};
use crate::procinfo::{
    all_tokens, children_from, nul_to_space, spec_nul_to_space, FdEntry, FdinfoSample, ProcError,
};
use crate::qmdrmfdinfo::QmDrmFdinfo;
use crate::text::{chars_of, parse_uint, spec_parse_uint, spec_trim_end, string_of, trim_end_range};

verus! {

/// A process: pid, command name, command line and procfs directory.
#[derive(Debug)]
pub struct QmProcInfo {
    pub pid: u32,
    pub comm: String,
    pub cmdline: String,
    pub proc_dir: String,
}

pub struct QmProcModel {
    pub pid: u32,
    pub comm: Seq<char>,
    pub cmdline: Seq<char>,
    pub proc_dir: Seq<char>,
}

impl View for QmProcInfo {
    type V = QmProcModel;

    open spec fn view(&self) -> QmProcModel {
        QmProcModel {
            pid: self.pid,
            comm: self.comm@,
            cmdline: self.cmdline@,
            proc_dir: self.proc_dir@,
        }
    }
}

/// The DRM fdinfo that one open file gives: none unless it is a DRM
/// character device whose fdinfo was read and parses.
pub open spec fn qm_fd_entry_sample(e: FdEntry) -> Option<FdinfoSample> {
    if !spec_is_drm_char_dev(e.st_mode, e.st_rdev) {
        None
    } else {
        match e.fdinfo {
            None => None,
            Some(text) => match spec_parse_fdinfo(text@) {
                Err(_) => None,
                Ok(m) => Some(
                    FdinfoSample {
                        model: m,
                        drm_minor: spec_dev_minor(e.st_rdev),
                        path: e.fdinfo_path@,
                        time_sampled: e.time_sampled,
                    },
                ),
            },
        }
    }
}

pub open spec fn qm_fd_entries_samples(es: Seq<FdEntry>) -> Seq<FdinfoSample>
    decreases es.len(),
{
    if es.len() == 0 {
        Seq::empty()
    } else {
        let prev = qm_fd_entries_samples(es.drop_last());
        match qm_fd_entry_sample(es.last()) {
            Some(x) => prev.push(x),
            None => prev,
        }
    }
}

pub open spec fn qm_sample_of(f: QmDrmFdinfo) -> FdinfoSample {
    FdinfoSample {
        model: f.model(),
        drm_minor: f.drm_minor,
        path: f.path@,
        time_sampled: f.time_sampled,
    }
}

impl QmProcInfo {
    /// A copy of this process description.
    pub fn duplicate(&self) -> (r: QmProcInfo)
        ensures
            r@ == self@,
    {
        QmProcInfo {
            pid: self.pid,
            comm: self.comm.clone(),
            cmdline: self.cmdline.clone(),
            proc_dir: self.proc_dir.clone(),
        }
    }

    /// The pids that the `children` files of this process's tasks list, in
    /// order.
    pub fn get_children_procs(&self, children: &Vec<String>) -> (r: Vec<String>)
        ensures
            r@.map_values(|s: String| s@) == all_tokens(children@.map_values(|s: String| s@)),
    {
        children_from(children)
    }

    /// The DRM fdinfos of this process's open files `fds`, in order: a file
    /// counts when it is a DRM character device whose fdinfo was read and
    /// parses.
    pub fn get_drm_fdinfos(&self, fds: Vec<FdEntry>) -> (r: Vec<QmDrmFdinfo>)
        ensures
            r@.map_values(|f: QmDrmFdinfo| qm_sample_of(f)) == qm_fd_entries_samples(fds@),
    {
        let mut r: Vec<QmDrmFdinfo> = Vec::new();
        let mut k: usize = 0;
        while k < fds.len()
            invariant
                k <= fds@.len(),
                r@.map_values(|f: QmDrmFdinfo| qm_sample_of(f)) == qm_fd_entries_samples(
                    fds@.take(k as int),
                ),
            decreases fds@.len() - k,
        {
            proof {
                assert(fds@.take(k + 1).drop_last() =~= fds@.take(k as int));
                assert(fds@.take(k + 1).last() == fds@[k as int]);
            }
            let e = &fds[k];
            let mut mn: u32 = 0;
            if QmDrmFdinfo::is_drm_fd(e.st_mode, e.st_rdev, &mut mn) {
                match &e.fdinfo {
                    Some(text) => {
                        match QmDrmFdinfo::from(text.as_str(), e.fdinfo_path.clone(), mn, e.time_sampled) {
                            Ok(fi) => {
                                let ghost before = r@;
                                r.push(fi);
                                assert(r@.map_values(|f: QmDrmFdinfo| qm_sample_of(f)) =~= before.map_values(
                                    |f: QmDrmFdinfo| qm_sample_of(f),
                                ).push(qm_sample_of(fi)));
                            },
                            Err(_) => {},
                        }
                    },
                    None => {},
                }
            }
            k = k + 1;
        }
        assert(fds@.take(k as int) =~= fds@);
        r
    }

    /// The process `npid` from the texts of its procfs `comm` and `cmdline`
    /// files: the command name loses its trailing whitespace, the command
    /// line's NULs become spaces.
    pub fn from(npid: &str, comm: &str, cmdline: &str) -> (r: Result<QmProcInfo, ProcError>)
        ensures
            match spec_parse_uint(npid@, u32::MAX as int) {
                None => r == Err::<QmProcInfo, ProcError>(ProcError::InvalidPid),
                Some(pid) => r matches Ok(p) && p.pid == pid && p.comm@ == spec_trim_end(comm@)
                    && p.cmdline@ == spec_nul_to_space(cmdline@) && p.proc_dir@ == "/proc/"@ + npid@,
            },
    {
        let pv = chars_of(npid);
        assert(pv@.subrange(0, pv@.len() as int) =~= pv@);
        let pid = match parse_uint(&pv, 0, pv.len(), 0xffff_ffff) {
            Some(x) => x as u32,
            None => {
                return Err(ProcError::InvalidPid);
            },
        };
        let cv = chars_of(comm);
        let e = trim_end_range(&cv, 0, cv.len());
        assert(cv@.subrange(0, cv@.len() as int) =~= cv@);
        let mut dir = String::from_str("/proc/");
        dir.append(npid);
        proof {
            reveal_strlit("/proc/");
        }
        Ok(QmProcInfo { pid, comm: string_of(comm, 0, e), cmdline: nul_to_space(cmdline), proc_dir: dir })
    }
}

} // verus!
