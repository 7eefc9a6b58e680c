//! What the drivers make of the values they read from sysfs and the PMU:
//! numbers and flags, the frequencies of a GT, PMU counter deltas and PMU
//! source names.
use vstd::prelude::*;

use crate::devices::{DrmDeviceFreqs, DrmDeviceThrottleReasons};
use crate::text::{
    chars_of, eq_lit, parse_uint, spec_parse_uint, spec_trim, spec_trim_end, trim_end_range,
    trim_range,
};

verus! {

/// Why a value read from sysfs or the PMU was refused.
#[derive(Debug, Clone, Copy, PartialEq, Eq, Structural)]
pub enum SysfsError {
    /// A file that had to be read could not be.
    Missing,
    /// A value that is not a decimal number.
    InvalidNumber,
    /// A line of a clock table without its value.
    Malformed,
    /// A PMU counter went back, or was not among the values read.
    BadCounter,
}

/// The number in a sysfs file: its text without trailing whitespace.
pub open spec fn spec_sysfs_u64(text: Seq<char>) -> Result<u64, SysfsError> {
    match spec_parse_uint(spec_trim_end(text), u64::MAX as int) {
        Some(x) => Ok(x as u64),
        None => Err(SysfsError::InvalidNumber),
    }
}

/// A sysfs flag is set when its trimmed text is `1`.
pub open spec fn spec_sysfs_flag(text: Seq<char>) -> bool {
    spec_trim(text) == "1"@
}

/// Reads the number in a sysfs file's text.
pub fn sysfs_u64(text: &str) -> (r: Result<u64, SysfsError>)
    ensures
        r == spec_sysfs_u64(text@),
{
    let v = chars_of(text);
    let e = trim_end_range(&v, 0, v.len());
    assert(v@.subrange(0, v@.len() as int) =~= v@);
    match parse_uint(&v, 0, e, u64::MAX) {
        Some(x) => Ok(x),
        None => Err(SysfsError::InvalidNumber),
    }
}

/// Reads a sysfs flag from a file's text.
pub fn sysfs_flag(text: &str) -> (r: bool)
    ensures
        r == spec_sysfs_flag(text@),
{
    let v = chars_of(text);
    let (a, b) = trim_range(&v, 0, v.len());
    assert(v@.subrange(0, v@.len() as int) =~= v@);
    eq_lit(&v, a, b, "1")
}

/// The texts read from one GT's frequency directory: minimum and maximum,
/// requested and actual (when read), and the nine throttle reasons `pl1`,
/// `pl2`, `pl4`, `prochot`, `ratl`, `thermal`, `vr_tdc`, `vr_thermalert`,
/// `status` (`None` when the file is absent or unreadable).
pub struct GtFreqTexts {
    pub min: String,
    pub max: String,
    pub cur: Option<String>,
    pub act: Option<String>,
    pub throttle: Vec<Option<String>>,
}

/// A throttle reason's value: a missing file counts as not set, unless
/// `strict`, where it is an error.
pub open spec fn spec_throttle_flag(t: Option<String>, strict: bool) -> Result<bool, SysfsError> {
    match t {
        Some(s) => Ok(spec_sysfs_flag(s@)),
        None => if strict {
            Err(SysfsError::Missing)
        } else {
            Ok(false)
        },
    }
}

pub open spec fn spec_opt_u64(t: Option<String>) -> Result<u64, SysfsError> {
    match t {
        Some(s) => spec_sysfs_u64(s@),
        None => Err(SysfsError::Missing),
    }
}

/// The frequencies of a GT from the texts of its directory: the requested
/// and actual ones come from the PMU when it gives them (`pmu`), else from
/// their files. Xe reads its throttle reasons `strict`ly.
pub open spec fn spec_gt_freqs(t: GtFreqTexts, pmu: Option<(u64, u64)>, strict: bool) -> Result<DrmDeviceFreqs, SysfsError> {
    match spec_sysfs_u64(t.min@) {
        Err(e) => Err(e),
        Ok(min) => match spec_sysfs_u64(t.max@) {
            Err(e) => Err(e),
            Ok(max) => {
                let ca: Result<(u64, u64), SysfsError> = match pmu {
                    Some(p) => Ok(p),
                    None => match spec_opt_u64(t.cur) {
                        Err(e) => Err(e),
                        Ok(c) => match spec_opt_u64(t.act) {
                            Err(e) => Err(e),
                            Ok(a) => Ok((c, a)),
                        },
                    },
                };
                match ca {
                    Err(e) => Err(e),
                    Ok((cur, act)) => match spec_throttle(t.throttle@, strict) {
                        Err(e) => Err(e),
                        Ok(tr) => Ok(
                            DrmDeviceFreqs {
                                min_freq: min,
                                cur_freq: cur,
                                act_freq: act,
                                max_freq: max,
                                throttle_reasons: tr,
                            },
                        ),
                    },
                }
            },
        },
    }
}

/// Each frequency comes from its own source: the minimum from the `min`
/// text, the maximum from the `max` text, the requested and actual ones
/// from the PMU when it gives them (requested first) and else from the
/// `cur` and `act` texts, and the throttle reasons from their files. The
/// frequencies are read only when all of these can be.
pub proof fn lemma_gt_freqs_sources(t: GtFreqTexts, pmu: Option<(u64, u64)>, strict: bool)
    ensures
        spec_gt_freqs(t, pmu, strict) matches Ok(f) ==> {
            &&& spec_sysfs_u64(t.min@) == Ok::<u64, SysfsError>(f.min_freq)
            &&& spec_sysfs_u64(t.max@) == Ok::<u64, SysfsError>(f.max_freq)
            &&& match pmu {
                Some((c, a)) => f.cur_freq == c && f.act_freq == a,
                None => spec_opt_u64(t.cur) == Ok::<u64, SysfsError>(f.cur_freq) && spec_opt_u64(t.act)
                    == Ok::<u64, SysfsError>(f.act_freq),
            }
            &&& spec_throttle(t.throttle@, strict) == Ok::<DrmDeviceThrottleReasons, SysfsError>(
                f.throttle_reasons,
            )
        },
        (spec_sysfs_u64(t.min@) is Ok && spec_sysfs_u64(t.max@) is Ok && (pmu is Some || (spec_opt_u64(t.cur) is Ok
            && spec_opt_u64(t.act) is Ok)) && spec_throttle(t.throttle@, strict) is Ok) <==> spec_gt_freqs(
            t,
            pmu,
            strict,
        ) is Ok,
{
}

/// The first throttle reason that fails decides the error.
pub open spec fn first_flag_err(ts: Seq<Option<String>>, strict: bool, n: int) -> Option<SysfsError>
    decreases n,
{
    if n <= 0 {
        None
    } else {
        match first_flag_err(ts, strict, n - 1) {
            Some(e) => Some(e),
            None => match spec_throttle_flag(ts[n - 1], strict) {
                Err(e) => Some(e),
                Ok(_) => None,
            },
        }
    }
}

pub open spec fn flag_at(ts: Seq<Option<String>>, strict: bool, i: int) -> bool {
    match spec_throttle_flag(ts[i], strict) {
        Ok(b) => b,
        Err(_) => false,
    }
}

pub open spec fn spec_throttle(ts: Seq<Option<String>>, strict: bool) -> Result<DrmDeviceThrottleReasons, SysfsError> {
    match first_flag_err(ts, strict, 9) {
        Some(e) => Err(e),
        None => Ok(
            DrmDeviceThrottleReasons {
                pl1: flag_at(ts, strict, 0),
                pl2: flag_at(ts, strict, 1),
                pl4: flag_at(ts, strict, 2),
                prochot: flag_at(ts, strict, 3),
                ratl: flag_at(ts, strict, 4),
                thermal: flag_at(ts, strict, 5),
                vr_tdc: flag_at(ts, strict, 6),
                vr_thermalert: flag_at(ts, strict, 7),
                status: flag_at(ts, strict, 8),
            },
        ),
    }
}

/// A throttle reason file, as read (`None` when it could not be), says its
/// reason is on: it was read and holds `1`, white space aside.
pub open spec fn reason_on(t: Option<String>) -> bool {
    t matches Some(s) && spec_trim(s@) == "1"@
}

proof fn lemma_first_flag_err_none(ts: Seq<Option<String>>, strict: bool, n: int)
    requires
        0 <= n <= ts.len(),
    ensures
        first_flag_err(ts, strict, n) is None <==> !(strict && exists|i: int| 0 <= i < n && (#[trigger] ts[i]) is None),
    decreases n,
{
    if n > 0 {
        lemma_first_flag_err_none(ts, strict, n - 1);
        if strict && exists|i: int| 0 <= i < n && (#[trigger] ts[i]) is None {
            let i = choose|i: int| 0 <= i < n && (#[trigger] ts[i]) is None;
            if i < n - 1 {
                assert(exists|i2: int| 0 <= i2 < n - 1 && (#[trigger] ts[i2]) is None);
            }
        } else {
            assert(!(strict && ts[n - 1] is None));
        }
    }
}

/// Each throttle reason is read from its own file, the files coming in the
/// order `pl1`, `pl2`, `pl4`, `prochot`, `ratl`, `thermal`, `vr_tdc`,
/// `vr_thermalert`, `status`: a reason is on exactly when its file was read
/// and holds `1`. Reading fails only when `strict` and a file is missing.
pub proof fn lemma_throttle_reasons_by_file(ts: Seq<Option<String>>, strict: bool)
    requires
        ts.len() == 9,
    ensures
        spec_throttle(ts, strict) is Err <==> strict && exists|i: int| 0 <= i < 9 && (#[trigger] ts[i]) is None,
        spec_throttle(ts, strict) matches Ok(r) ==> {
            &&& r.pl1 == reason_on(ts[0])
            &&& r.pl2 == reason_on(ts[1])
            &&& r.pl4 == reason_on(ts[2])
            &&& r.prochot == reason_on(ts[3])
            &&& r.ratl == reason_on(ts[4])
            &&& r.thermal == reason_on(ts[5])
            &&& r.vr_tdc == reason_on(ts[6])
            &&& r.vr_thermalert == reason_on(ts[7])
            &&& r.status == reason_on(ts[8])
        },
{
    lemma_first_flag_err_none(ts, strict, 9);
    assert forall|i: int| 0 <= i < 9 implies flag_at(ts, strict, i) == reason_on(#[trigger] ts[i]) by {
        match ts[i] {
            Some(t) => {},
            None => {},
        }
    }
    assert(flag_at(ts, strict, 0) == reason_on(ts[0]));
    assert(flag_at(ts, strict, 1) == reason_on(ts[1]));
    assert(flag_at(ts, strict, 2) == reason_on(ts[2]));
    assert(flag_at(ts, strict, 3) == reason_on(ts[3]));
    assert(flag_at(ts, strict, 4) == reason_on(ts[4]));
    assert(flag_at(ts, strict, 5) == reason_on(ts[5]));
    assert(flag_at(ts, strict, 6) == reason_on(ts[6]));
    assert(flag_at(ts, strict, 7) == reason_on(ts[7]));
    assert(flag_at(ts, strict, 8) == reason_on(ts[8]));
}

fn throttle_flag(t: &Option<String>, strict: bool) -> (r: Result<bool, SysfsError>)
    ensures
        r == spec_throttle_flag(*t, strict),
{
    match t {
        Some(s) => Ok(sysfs_flag(s.as_str())),
        None => if strict {
            Err(SysfsError::Missing)
        } else {
            Ok(false)
        },
    }
}

fn opt_u64(t: &Option<String>) -> (r: Result<u64, SysfsError>)
    ensures
        r == spec_opt_u64(*t),
{
    match t {
        Some(s) => sysfs_u64(s.as_str()),
        None => Err(SysfsError::Missing),
    }
}

/// The throttle reasons from their nine texts.
pub fn throttle_reasons(ts: &Vec<Option<String>>, strict: bool) -> (r: Result<DrmDeviceThrottleReasons, SysfsError>)
    requires
        ts@.len() == 9,
    ensures
        r == spec_throttle(ts@, strict),
{
    let mut flags: Vec<bool> = Vec::new();
    let mut k: usize = 0;
    while k < 9
        invariant
            k <= 9,
            ts@.len() == 9,
            flags@.len() == k,
            first_flag_err(ts@, strict, k as int) is None,
            forall|i: int| 0 <= i < k ==> flags@[i] == flag_at(ts@, strict, i),
        decreases 9 - k,
    {
        match throttle_flag(&ts[k], strict) {
            Ok(b) => {
                flags.push(b);
            },
            Err(e) => {
                proof {
                    lemma_first_flag_err_stays(ts@, strict, k as int + 1, 9);
                }
                return Err(e);
            },
        }
        k = k + 1;
    }
    Ok(
        DrmDeviceThrottleReasons {
            pl1: flags[0],
            pl2: flags[1],
            pl4: flags[2],
            prochot: flags[3],
            ratl: flags[4],
            thermal: flags[5],
            vr_tdc: flags[6],
            vr_thermalert: flags[7],
            status: flags[8],
        },
    )
}

proof fn lemma_first_flag_err_stays(ts: Seq<Option<String>>, strict: bool, n: int, m: int)
    requires
        0 <= n <= m,
        first_flag_err(ts, strict, n) is Some,
    ensures
        first_flag_err(ts, strict, m) == first_flag_err(ts, strict, n),
    decreases m - n,
{
    if n < m {
        lemma_first_flag_err_stays(ts, strict, n + 1, m);
    }
}

/// The frequencies of a GT from the texts read from its directory.
pub fn gt_freqs(t: &GtFreqTexts, pmu: Option<(u64, u64)>, strict: bool) -> (r: Result<DrmDeviceFreqs, SysfsError>)
    requires
        t.throttle@.len() == 9,
    ensures
        r == spec_gt_freqs(*t, pmu, strict),
{
    let min = sysfs_u64(t.min.as_str())?;
    let max = sysfs_u64(t.max.as_str())?;
    let (cur, act) = match pmu {
        Some(p) => p,
        None => {
            let c = opt_u64(&t.cur)?;
            let a = opt_u64(&t.act)?;
            (c, a)
        },
    };
    let tr = throttle_reasons(&t.throttle, strict)?;
    Ok(DrmDeviceFreqs { min_freq: min, cur_freq: cur, act_freq: act, max_freq: max, throttle_reasons: tr })
}

/// The last PMU counter values seen for one GT: requested and actual
/// frequency cycles.
#[derive(Debug, Clone, Copy, PartialEq, Eq, Structural)]
pub struct GtFreqsPmuData {
    pub last_cur: u64,
    pub last_act: u64,
}

/// Frequency counters of a device's GTs, read through the PMU.
#[derive(Debug)]
pub struct XeFreqsPmu {
    pub gts_data: Vec<GtFreqsPmuData>,
    pub nr_updates: u64,
}

impl XeFreqsPmu {
    /// Records one more read of the counters.
    pub fn read_all(&mut self)
        ensures
            final(self).gts_data == old(self).gts_data,
            final(self).nr_updates == if old(self).nr_updates < u64::MAX {
                (old(self).nr_updates + 1) as u64
            } else {
                u64::MAX
            },
    {
        self.nr_updates = self.nr_updates.saturating_add(1);
    }

    /// How much GT `gt_nr`'s requested and actual frequency counters moved
    /// since the last read, from the values `data` read (group header first,
    /// then two counters per GT); nothing before two reads. The values
    /// become the last seen.
    pub fn freqs(&mut self, gt_nr: usize, data: &Vec<u64>) -> (r: Result<(u64, u64), SysfsError>)
        ensures
            gt_nr >= old(self).gts_data@.len() || data@.len() <= 2 * gt_nr + 2 ==> r == Err::<(u64, u64), SysfsError>(
                SysfsError::BadCounter,
            ) && *final(self) == *old(self),
            gt_nr < old(self).gts_data@.len() && data@.len() > 2 * gt_nr + 2 ==> {
                let cur = data@[2 * gt_nr + 1];
                let act = data@[2 * gt_nr + 2];
                let g = old(self).gts_data@[gt_nr as int];
                if old(self).nr_updates >= 2 && (cur < g.last_cur || act < g.last_act) {
                    r == Err::<(u64, u64), SysfsError>(SysfsError::BadCounter) && *final(self) == *old(self)
                } else {
                    &&& r == Ok::<(u64, u64), SysfsError>(
                        if old(self).nr_updates >= 2 {
                            ((cur - g.last_cur) as u64, (act - g.last_act) as u64)
                        } else {
                            (0u64, 0u64)
                        },
                    )
                    &&& final(self).nr_updates == old(self).nr_updates
                    &&& final(self).gts_data@ == old(self).gts_data@.update(
                        gt_nr as int,
                        GtFreqsPmuData { last_cur: cur, last_act: act },
                    )
                }
            },
    {
        if gt_nr >= self.gts_data.len() || (data.len() as u128) <= 2 * (gt_nr as u128) + 2 {
            return Err(SysfsError::BadCounter);
        }
        let g = self.gts_data[gt_nr];
        let base = 1 + 2 * gt_nr;
        let cur = data[base];
        let act = data[base + 1];
        let mut dc: u64 = 0;
        let mut da: u64 = 0;
        if self.nr_updates >= 2 {
            if cur < g.last_cur || act < g.last_act {
                return Err(SysfsError::BadCounter);
            }
            dc = cur - g.last_cur;
            da = act - g.last_act;
        }
        self.gts_data.set(gt_nr, GtFreqsPmuData { last_cur: cur, last_act: act });
        Ok((dc, da))
    }
}

/// `s` with each `:` replaced by `_`.
pub open spec fn spec_colon_to_underscore(s: Seq<char>) -> Seq<char> {
    s.map_values(|c: char| if c == ':' { '_' } else { c })
}

/// The name of a device's PMU event source: `xe_` and the PCI slot of its
/// physical function, with `:` replaced by `_`.
pub fn xe_pmu_source_from(pf_dev: &str) -> (r: String)
    ensures
        r@ == "xe_"@ + spec_colon_to_underscore(pf_dev@),
{
    let v = chars_of(pf_dev);
    let n = v.len();
    let mut r = String::from_str("xe_");
    proof {
        reveal_strlit("xe_");
    }
    let ghost start = r@;
    let mut i: usize = 0;
    while i < n
        invariant
            n == v@.len(),
            v@ == pf_dev@,
            i <= n,
            start == "xe_"@,
            r@ == start + spec_colon_to_underscore(pf_dev@).take(i as int),
        decreases n - i,
    {
        let j = crate::text::find_char(&v, i, n, ':');
        proof {
            crate::text::lemma_find_from_bounds(v@.subrange(i as int, n as int), 0, ':');
        }
        let part = pf_dev.substring_char(i, j);
        r.append(part);
        assert forall|q: int| i <= q < j implies v@[q] != ':' by {
            assert(v@.subrange(i as int, n as int)[q - i] == v@[q]);
        }
        assert(r@ =~= start + spec_colon_to_underscore(pf_dev@).take(j as int));
        if j < n {
            assert(v@.subrange(i as int, n as int)[j - i] == v@[j as int]);
            let ghost before = r@;
            r.append("_");
            proof {
                reveal_strlit("_");
            }
            assert("_"@ =~= seq!['_']);
            assert(r@ =~= start + spec_colon_to_underscore(pf_dev@).take(j + 1));
            i = j + 1;
        } else {
            i = j;
        }
    }
    assert(spec_colon_to_underscore(pf_dev@).take(n as int) =~= spec_colon_to_underscore(pf_dev@));
    r
}

} // verus!
