//! Processes as procfs describes them: identity, CPU time accounting from
//! `/proc/<pid>/stat`, children and the DRM fdinfos of their open files.
use vstd::prelude::*;

use crate::devnum::{spec_dev_minor, spec_is_drm_char_dev};
use crate::fdinfo::{spec_parse_fdinfo, DrmFdinfo, FdinfoModel};
use crate::text::{
    chars_of, find_char, is_digit, parse_uint, spec_parse_uint, spec_tokens, spec_trim_end,
    string_of, token_ranges, trim_end_range,
};

verus! {

/// Why a process description was refused.
#[derive(Debug, Clone, Copy, PartialEq, Eq, Structural)]
pub enum ProcError {
    /// The pid is not a decimal number that fits in 32 bits.
    InvalidPid,
    /// The `stat` text has no `')'` closing the command name.
    MissingCommEnd,
    /// The `stat` text has fewer fields than the thread count's position.
    TooFewFields,
    /// A `stat` field read as a number is not one.
    InvalidNumber,
    /// User plus system time does not fit in 64 bits.
    CpuTimeOverflow,
    /// The CPU time read is below the one read before.
    CpuTimeBackwards,
}

/// The figures that one read of `/proc/<pid>/stat` gives.
#[derive(Debug, Clone, Copy, PartialEq, Eq, Structural)]
pub struct ProcStat {
    /// User plus system time, in clock ticks.
    pub cputime: u64,
    pub nr_threads: u64,
}

/// Last index below `i` where `s` holds `c`, or -1.
pub open spec fn rfind_before(s: Seq<char>, i: int, c: char) -> int
    decreases i,
{
    if i <= 0 || i > s.len() {
        -1
    } else if s[i - 1] == c {
        i - 1
    } else {
        rfind_before(s, i - 1, c)
    }
}

proof fn lemma_rfind_before(s: Seq<char>, i: int, c: char)
    requires
        0 <= i <= s.len(),
    ensures
        -1 <= rfind_before(s, i, c) < i,
        rfind_before(s, i, c) >= 0 ==> s[rfind_before(s, i, c)] == c,
    decreases i,
{
    if i > 0 && s[i - 1] != c {
        lemma_rfind_before(s, i - 1, c);
    }
}

/// The fields of a `stat` text after the command name: its whitespace
/// tokens after the last `')'`.
pub open spec fn stat_fields(stat: Seq<char>) -> Seq<Seq<char>> {
    spec_tokens(stat.skip(rfind_before(stat, stat.len() as int, ')') + 1))
}

/// What a `stat` text gives: user and system time are the fields at 11 and
/// 12 after the command name, the thread count the field at 17.
pub open spec fn spec_parse_stat(stat: Seq<char>) -> Result<ProcStat, ProcError> {
    if rfind_before(stat, stat.len() as int, ')') < 0 {
        Err(ProcError::MissingCommEnd)
    } else {
        let f = stat_fields(stat);
        if f.len() < 18 {
            Err(ProcError::TooFewFields)
        } else {
            match (
                spec_parse_uint(f[11], u64::MAX as int),
                spec_parse_uint(f[12], u64::MAX as int),
                spec_parse_uint(f[17], u64::MAX as int),
            ) {
                (Some(ut), Some(st), Some(nt)) => if ut + st > u64::MAX {
                    Err(ProcError::CpuTimeOverflow)
                } else {
                    Ok(ProcStat { cputime: (ut + st) as u64, nr_threads: nt as u64 })
                },
                _ => Err(ProcError::InvalidNumber),
            }
        }
    }
}

/// Reads the CPU time and thread count from the text of `/proc/<pid>/stat`.
pub fn parse_stat(stat: &str) -> (r: Result<ProcStat, ProcError>)
    ensures
        r == spec_parse_stat(stat@),
{
    let v = chars_of(stat);
    let n = v.len();
    let mut i = n;
    proof {
        lemma_rfind_before(v@, n as int, ')');
    }
    while i > 0 && v[i - 1] != ')'
        invariant
            i <= n == v@.len(),
            rfind_before(v@, n as int, ')') == rfind_before(v@, i as int, ')'),
        decreases i,
    {
        i = i - 1;
    }
    if i == 0 {
        return Err(ProcError::MissingCommEnd);
    }
    assert(rfind_before(v@, n as int, ')') == i - 1);
    assert(v@.skip(i as int) =~= v@.subrange(i as int, n as int));
    let toks = token_ranges(&v, i, n);
    if toks.len() < 18 {
        return Err(ProcError::TooFewFields);
    }
    let ghost f = stat_fields(stat@);
    let ut = parse_uint(&v, toks[11].0, toks[11].1, u64::MAX);
    let st = parse_uint(&v, toks[12].0, toks[12].1, u64::MAX);
    let nt = parse_uint(&v, toks[17].0, toks[17].1, u64::MAX);
    assert(v@.subrange(toks@[11].0 as int, toks@[11].1 as int) == f[11]);
    assert(v@.subrange(toks@[12].0 as int, toks@[12].1 as int) == f[12]);
    assert(v@.subrange(toks@[17].0 as int, toks@[17].1 as int) == f[17]);
    match (ut, st, nt) {
        (Some(ut), Some(st), Some(nt)) => {
            if ut > u64::MAX - st {
                Err(ProcError::CpuTimeOverflow)
            } else {
                Ok(ProcStat { cputime: ut + st, nr_threads: nt })
            }
        },
        _ => Err(ProcError::InvalidNumber),
    }
}

/// A process: pid, command name, command line, procfs directory, and the
/// CPU time accounting of its last two samples. Times are in milliseconds of
/// a monotonic clock; CPU times in clock ticks.
#[derive(Debug, Clone)]
pub struct ProcInfo {
    pub pid: u32,
    pub comm: String,
    pub cmdline: String,
    pub proc_dir: String,
    pub cputime_last: u64,
    pub cputime_delta: u64,
    pub nr_threads: u64,
    pub nr_updates: u64,
    pub ms_elapsed: u64,
    pub last_update: u64,
}

/// Abstract value of a [`ProcInfo`].
pub struct ProcModel {
    pub pid: u32,
    pub comm: Seq<char>,
    pub cmdline: Seq<char>,
    pub proc_dir: Seq<char>,
    pub cputime_last: u64,
    pub cputime_delta: u64,
    pub nr_threads: u64,
    pub nr_updates: u64,
    pub ms_elapsed: u64,
    pub last_update: u64,
}

impl View for ProcInfo {
    type V = ProcModel;

    open spec fn view(&self) -> ProcModel {
        ProcModel {
            pid: self.pid,
            comm: self.comm@,
            cmdline: self.cmdline@,
            proc_dir: self.proc_dir@,
            cputime_last: self.cputime_last,
            cputime_delta: self.cputime_delta,
            nr_threads: self.nr_threads,
            nr_updates: self.nr_updates,
            ms_elapsed: self.ms_elapsed,
            last_update: self.last_update,
        }
    }
}

/// One more sample of a process's CPU time, taken at `now`: the delta is
/// taken against the last sample, the elapsed time too (0 when the clock
/// reads earlier), and the number of samples grows by one (saturating).
pub open spec fn spec_proc_sample(p: ProcModel, st: ProcStat, now: u64) -> ProcModel {
    ProcModel {
        cputime_delta: (st.cputime - p.cputime_last) as u64,
        cputime_last: st.cputime,
        nr_threads: st.nr_threads,
        ms_elapsed: if now >= p.last_update {
            (now - p.last_update) as u64
        } else {
            0
        },
        last_update: now,
        nr_updates: if p.nr_updates < u64::MAX {
            (p.nr_updates + 1) as u64
        } else {
            u64::MAX
        },
        ..p
    }
}

/// `s` with every NUL character replaced by a space, as procfs command lines
/// are shown.
pub open spec fn spec_nul_to_space(s: Seq<char>) -> Seq<char> {
    s.map_values(|c: char| if c == '\0' { ' ' } else { c })
}

/// Whitespace tokens of each text, in order, one after the other.
pub open spec fn all_tokens(ts: Seq<Seq<char>>) -> Seq<Seq<char>>
    decreases ts.len(),
{
    if ts.len() == 0 {
        Seq::empty()
    } else {
        all_tokens(ts.drop_last()) + spec_tokens(ts.last())
    }
}

/// One open file of a process, as the caller found it under
/// `/proc/<pid>/fd`: the mode and device number of the file it points to,
/// and the text of its fdinfo (`None` when it could not be read).
pub struct FdEntry {
    pub st_mode: u32,
    pub st_rdev: u64,
    pub fdinfo_path: String,
    pub fdinfo: Option<String>,
    pub time_sampled: u64,
}

/// What a kept fdinfo is: its parsed model, minor, path and sampling time.
pub struct FdinfoSample {
    pub model: FdinfoModel,
    pub drm_minor: u32,
    pub path: Seq<char>,
    pub time_sampled: u64,
}

/// The DRM fdinfo that one open file gives: none unless it is a DRM
/// character device whose fdinfo was read, parses, and names a PCI device.
pub open spec fn fd_entry_sample(e: FdEntry) -> Option<FdinfoSample> {
    if !spec_is_drm_char_dev(e.st_mode, e.st_rdev) {
        None
    } else {
        match e.fdinfo {
            None => None,
            Some(text) => match spec_parse_fdinfo(text@) {
                Err(_) => None,
                Ok(m) => if m.pci_dev.len() == 0 {
                    None
                } else {
                    Some(
                        FdinfoSample {
                            model: m,
                            drm_minor: spec_dev_minor(e.st_rdev),
                            path: e.fdinfo_path@,
                            time_sampled: e.time_sampled,
                        },
                    )
                },
            },
        }
    }
}

/// The DRM fdinfos that a process's open files give, in order.
pub open spec fn fd_entries_samples(es: Seq<FdEntry>) -> Seq<FdinfoSample>
    decreases es.len(),
{
    if es.len() == 0 {
        Seq::empty()
    } else {
        let prev = fd_entries_samples(es.drop_last());
        match fd_entry_sample(es.last()) {
            Some(x) => prev.push(x),
            None => prev,
        }
    }
}

pub open spec fn fdinfo_sample_of(f: DrmFdinfo) -> FdinfoSample {
    FdinfoSample {
        model: f.model(),
        drm_minor: f.drm_minor,
        path: f.path@,
        time_sampled: f.time_sampled,
    }
}

impl ProcInfo {
    /// A copy of this process description.
    pub fn duplicate(&self) -> (r: ProcInfo)
        ensures
            r@ == self@,
    {
        ProcInfo {
            pid: self.pid,
            comm: self.comm.clone(),
            cmdline: self.cmdline.clone(),
            proc_dir: self.proc_dir.clone(),
            cputime_last: self.cputime_last,
            cputime_delta: self.cputime_delta,
            nr_threads: self.nr_threads,
            nr_updates: self.nr_updates,
            ms_elapsed: self.ms_elapsed,
            last_update: self.last_update,
        }
    }

    /// Whether two descriptions are of the same process: same pid, command
    /// name and command line.
    pub fn same_process(&self, other: &ProcInfo) -> (r: bool)
        ensures
            r == (self.pid == other.pid && self.comm@ == other.comm@ && self.cmdline@
                == other.cmdline@),
    {
        self.pid == other.pid && self.comm == other.comm && self.cmdline == other.cmdline
    }

    /// Whether `pid` names a process: it starts with a decimal digit and
    /// `/proc/<pid>` is a directory (`pid_dir_exists`, which the caller
    /// tested).
    pub fn is_valid_pid(pid: &str, pid_dir_exists: bool) -> (r: bool)
        requires
            pid@.len() > 0,
        ensures
            r == (is_digit(pid@[0]) && pid_dir_exists),
    {
        let c = pid.get_char(0);
        let u: u32 = c as u32;
        if !(0x30 <= u && u <= 0x39) {
            return false;
        }
        pid_dir_exists
    }

    /// The pids that the `children` files of this process's tasks list, in
    /// order: the whitespace tokens of each file's text.
    pub fn children_pids(&self, children: &Vec<String>) -> (r: Vec<String>)
        ensures
            r@.map_values(|s: String| s@) == all_tokens(children@.map_values(|s: String| s@)),
    {
        children_from(children)
    }

    /// The DRM fdinfos of this process's open files `fds`, in order: a file
    /// counts when it is a DRM character device whose fdinfo was read,
    /// parses, and names a PCI device.
    pub fn drm_fdinfos(&self, fds: Vec<FdEntry>) -> (r: Vec<DrmFdinfo>)
        ensures
            r@.map_values(|f: DrmFdinfo| fdinfo_sample_of(f)) == fd_entries_samples(fds@),
            forall|k: int| 0 <= k < r@.len() ==> (#[trigger] r@[k]).wf(),
    {
        let mut r: Vec<DrmFdinfo> = Vec::new();
        let mut k: usize = 0;
        while k < fds.len()
            invariant
                k <= fds@.len(),
                r@.map_values(|f: DrmFdinfo| fdinfo_sample_of(f)) == fd_entries_samples(
                    fds@.take(k as int),
                ),
                forall|q: int| 0 <= q < r@.len() ==> (#[trigger] r@[q]).wf(),
            decreases fds@.len() - k,
        {
            proof {
                assert(fds@.take(k + 1).drop_last() =~= fds@.take(k as int));
                assert(fds@.take(k + 1).last() == fds@[k as int]);
            }
            let e = &fds[k];
            let mut mn: u32 = 0;
            if DrmFdinfo::is_drm_fd(e.st_mode, e.st_rdev, &mut mn) {
                match &e.fdinfo {
                    Some(text) => {
                        match DrmFdinfo::from(text.as_str(), e.fdinfo_path.clone(), mn, e.time_sampled) {
                            Ok(fi) => {
                                if fi.pci_dev.as_str().unicode_len() > 0 {
                                    r.push(fi);
                                    assert(r@.map_values(|f: DrmFdinfo| fdinfo_sample_of(f))
                                        =~= fd_entries_samples(fds@.take(k + 1)));
                                }
                            },
                            Err(_) => {},
                        }
                    },
                    None => {},
                }
            }
            k = k + 1;
        }
        assert(fds@.take(k as int) =~= fds@);
        r
    }

    /// Takes one more CPU time sample `st` at time `now`. A CPU time below
    /// the last one is refused and leaves the process as it was.
    pub fn update_with(&mut self, st: ProcStat, now: u64) -> (r: Result<(), ProcError>)
        ensures
            st.cputime >= old(self).cputime_last ==> r is Ok && final(self)@ == spec_proc_sample(
                old(self)@,
                st,
                now,
            ),
            st.cputime < old(self).cputime_last ==> r == Err::<(), ProcError>(
                ProcError::CpuTimeBackwards,
            ) && final(self)@ == old(self)@,
    {
        if st.cputime < self.cputime_last {
            return Err(ProcError::CpuTimeBackwards);
        }
        self.nr_threads = st.nr_threads;
        self.cputime_delta = st.cputime - self.cputime_last;
        self.cputime_last = st.cputime;
        self.ms_elapsed = now.saturating_sub(self.last_update);
        self.last_update = now;
        self.nr_updates = self.nr_updates.saturating_add(1);
        Ok(())
    }

    /// Takes one more sample from the text of `/proc/<pid>/stat` read at
    /// time `now`. A refused text leaves the process as it was.
    pub fn update(&mut self, stat: &str, now: u64) -> (r: Result<(), ProcError>)
        ensures
            match spec_parse_stat(stat@) {
                Err(e) => r == Err::<(), ProcError>(e) && final(self)@ == old(self)@,
                Ok(st) => if st.cputime >= old(self).cputime_last {
                    r is Ok && final(self)@ == spec_proc_sample(old(self)@, st, now)
                } else {
                    r == Err::<(), ProcError>(ProcError::CpuTimeBackwards) && final(self)@ == old(
                        self,
                    )@
                },
            },
    {
        let st = parse_stat(stat)?;
        self.update_with(st, now)
    }

    /// The process `npid` from the texts of its procfs `comm`, `cmdline` and
    /// `stat` files, read at time `now`: the command name loses its trailing
    /// whitespace, the command line's NULs become spaces, and one CPU time
    /// sample is taken.
    pub fn from(npid: &str, comm: &str, cmdline: &str, stat: &str, now: u64) -> (r: Result<
        ProcInfo,
        ProcError,
    >)
        ensures
            match spec_parse_uint(npid@, u32::MAX as int) {
                None => r == Err::<ProcInfo, ProcError>(ProcError::InvalidPid),
                Some(pid) => match spec_parse_stat(stat@) {
                    Err(e) => r == Err::<ProcInfo, ProcError>(e),
                    Ok(st) => r matches Ok(p) && p@ == ProcModel {
                        pid: pid as u32,
                        comm: spec_trim_end(comm@),
                        cmdline: spec_nul_to_space(cmdline@),
                        proc_dir: "/proc/"@ + npid@,
                        cputime_last: st.cputime,
                        cputime_delta: st.cputime,
                        nr_threads: st.nr_threads,
                        nr_updates: 1,
                        ms_elapsed: 0,
                        last_update: now,
                    },
                },
            },
    {
        let pv = chars_of(npid);
        assert(pv@.subrange(0, pv@.len() as int) =~= pv@);
        let pid = match parse_uint(&pv, 0, pv.len(), 0xffff_ffff) {
            Some(x) => x as u32,
            None => {
                return Err(ProcError::InvalidPid);
            },
        };
        let cv = chars_of(comm);
        let e = trim_end_range(&cv, 0, cv.len());
        assert(cv@.subrange(0, cv@.len() as int) =~= cv@);
        let comm_s = string_of(comm, 0, e);
        let cmd_s = nul_to_space(cmdline);
        let mut dir = String::from_str("/proc/");
        dir.append(npid);
        proof {
            reveal_strlit("/proc/");
        }
        let mut p = ProcInfo {
            pid,
            comm: comm_s,
            cmdline: cmd_s,
            proc_dir: dir,
            cputime_last: 0,
            cputime_delta: 0,
            nr_threads: 0,
            nr_updates: 0,
            ms_elapsed: 0,
            last_update: now,
        };
        p.update(stat, now)?;
        Ok(p)
    }
}

/// The pids that the texts of a process's `children` files list, in order:
/// the whitespace tokens of each text.
pub fn children_from(children: &Vec<String>) -> (r: Vec<String>)
    ensures
        r@.map_values(|s: String| s@) == all_tokens(children@.map_values(|s: String| s@)),
{
    let ghost cs = children@.map_values(|s: String| s@);
    let mut r: Vec<String> = Vec::new();
    let mut k: usize = 0;
    while k < children.len()
        invariant
            k <= children@.len(),
            cs == children@.map_values(|s: String| s@),
            r@.map_values(|s: String| s@) == all_tokens(cs.take(k as int)),
        decreases children@.len() - k,
    {
        let line = children[k].as_str();
        let v = chars_of(line);
        let toks = token_ranges(&v, 0, v.len());
        assert(v@.subrange(0, v@.len() as int) =~= v@);
        let ghost r0 = r@.map_values(|s: String| s@);
        let mut j: usize = 0;
        while j < toks.len()
            invariant
                j <= toks@.len(),
                v@ == line@,
                toks@.len() == spec_tokens(v@).len(),
                forall|q: int|
                    0 <= q < toks@.len() ==> (#[trigger] toks@[q]).0 <= toks@[q].1 <= v@.len()
                        && v@.subrange(toks@[q].0 as int, toks@[q].1 as int) == spec_tokens(
                        v@,
                    )[q],
                r@.map_values(|s: String| s@) == r0 + spec_tokens(v@).take(j as int),
            decreases toks@.len() - j,
        {
            let (a, b) = toks[j];
            let t = string_of(line, a, b);
            assert(t@ == spec_tokens(v@)[j as int]);
            assert(spec_tokens(v@).take(j + 1) =~= spec_tokens(v@).take(j as int).push(
                spec_tokens(v@)[j as int],
            ));
            let ghost before = r@;
            r.push(t);
            assert(r@ == before.push(t));
            assert(r@.map_values(|s: String| s@) =~= before.map_values(|s: String| s@).push(
                t@,
            ));
            assert(r@.map_values(|s: String| s@) =~= r0 + spec_tokens(v@).take(j + 1));
            j = j + 1;
        }
        proof {
            assert(cs.take(k + 1).drop_last() =~= cs.take(k as int));
            assert(cs.take(k + 1).last() == line@);
            assert(spec_tokens(v@).take(j as int) =~= spec_tokens(v@));
        }
        k = k + 1;
    }
    assert(cs.take(k as int) =~= cs);
    r
}

/// `s` with every NUL character replaced by a space.
pub fn nul_to_space(s: &str) -> (r: String)
    ensures
        r@ == spec_nul_to_space(s@),
{
    let v = chars_of(s);
    let n = v.len();
    let mut r = String::new();
    let mut i: usize = 0;
    while i < n
        invariant
            n == v@.len(),
            v@ == s@,
            i <= n,
            r@ == spec_nul_to_space(s@).take(i as int),
        decreases n - i,
    {
        let j = find_char(&v, i, n, '\0');
        proof {
            crate::text::lemma_find_from_bounds(v@.subrange(i as int, n as int), 0, '\0');
        }
        let part = s.substring_char(i, j);
        r.append(part);
        assert forall|q: int| i <= q < j implies v@[q] != '\0' by {
            assert(v@.subrange(i as int, n as int)[q - i] == v@[q]);
        }
        assert(r@ =~= spec_nul_to_space(s@).take(j as int));
        if j < n {
            assert(v@.subrange(i as int, n as int)[j - i] == v@[j as int]);
            assert(v@[j as int] == '\0');
            let ghost before = r@;
            r.append(" ");
            proof {
                reveal_strlit(" ");
            }
            assert(" "@ =~= seq![' ']);
            assert(r@ == before + seq![' ']);
            assert(spec_nul_to_space(s@)[j as int] == ' ');
            assert(r@ =~= spec_nul_to_space(s@).take(j + 1));
            i = j + 1;
        } else {
            i = j;
        }
    }
    assert(spec_nul_to_space(s@).take(n as int) =~= spec_nul_to_space(s@));
    r
}

} // verus!
