//! What the `amdgpu` driver makes of what it reads: the device type from
//! its flags, the hwmon sensor of its power, its render node, and the
//! shader clock table (`pp_dpm_sclk`), from which it takes the frequency
//! limits and the current frequency.
use vstd::prelude::*;

use crate::devices::{DeviceNodeInfo, DrmDeviceFreqLimits, DrmDeviceFreqs, DrmDeviceType, VirtFn};
use crate::drivers::SysfsError;
use crate::hwmon::{Hwmon, Sensor, SensorModel};
use crate::text::{
    chars_of, eq_lit, is_prefix, line_ranges, parse_uint, spec_lines, spec_parse_uint, spec_split,
    spec_trim, split_ranges, string_of, trim_range,
};

verus! {

/// The device-info flag of an APU (integrated GPU).
pub const AMDGPU_IDS_FLAGS_FUSION: u64 = 1;

/// An `amdgpu` device is integrated when its device-info flags have the
/// APU bit (bit 0), else discrete.
pub fn amdgpu_dev_type(ids_flags: u64) -> (r: DrmDeviceType)
    ensures
        r == if ids_flags % 2 == 1 {
            DrmDeviceType::Integrated(VirtFn::NoVirt)
        } else {
            DrmDeviceType::Discrete(VirtFn::NoVirt)
        },
{
    assert((ids_flags & AMDGPU_IDS_FLAGS_FUSION > 0) == (ids_flags % 2 == 1)) by (bit_vector);
    if ids_flags & AMDGPU_IDS_FLAGS_FUSION > 0 {
        DrmDeviceType::Integrated(VirtFn::NoVirt)
    } else {
        DrmDeviceType::Discrete(VirtFn::NoVirt)
    }
}

/// The sensor that reports a discrete device's power: the last `power*`
/// sensor with an `average` item, empty when there is none.
pub open spec fn spec_power_sensor(ss: Seq<SensorModel>) -> Seq<char>
    decreases ss.len(),
{
    if ss.len() == 0 {
        Seq::empty()
    } else if ss.last().items.contains("average"@) {
        ss.last().stype
    } else {
        spec_power_sensor(ss.drop_last())
    }
}

/// The hwmon sensor that reports the device's power.
pub fn power_sensor(hwmon: &Hwmon) -> (r: String)
    ensures
        r@ == spec_power_sensor(
            hwmon.model().filter(|s: SensorModel| is_prefix("power"@, s.stype)),
        ),
{
    let plist = hwmon.sensors("power");
    let ghost m = plist@.map_values(|s: &Sensor| s@);
    let mut sensor = String::new();
    let mut k: usize = 0;
    while k < plist.len()
        invariant
            k <= plist@.len(),
            m == plist@.map_values(|s: &Sensor| s@),
            sensor@ == spec_power_sensor(m.take(k as int)),
        decreases plist@.len() - k,
    {
        proof {
            assert(m.take(k + 1).drop_last() =~= m.take(k as int));
            assert(m.take(k + 1).last() == plist@[k as int]@);
        }
        if plist[k].has_item("average") {
            sensor = plist[k].stype.clone();
        }
        k = k + 1;
    }
    assert(m.take(k as int) =~= m);
    sensor
}

pub open spec fn contains_seq(s: Seq<char>, p: Seq<char>) -> bool {
    exists|i: int| 0 <= i && i + p.len() <= s.len() && #[trigger] s.subrange(i, i + p.len()) == p
}

/// Whether `s` contains `render`.
fn contains_render(s: &str) -> (r: bool)
    ensures
        r == contains_seq(s@, "render"@),
{
    proof {
        reveal_strlit("render");
    }
    let v = chars_of(s);
    let n = v.len();
    if n < 6 {
        return false;
    }
    let mut i: usize = 0;
    assert(("render"@).len() == 6);
    while i <= n - 6
        invariant
            n == v@.len() == s@.len(),
            n >= 6,
            i <= n - 5,
            v@ == s@,
            ("render"@).len() == 6,
            forall|j: int| 0 <= j < i ==> #[trigger] v@.subrange(j, j + 6) != "render"@,
        decreases n - i,
    {
        if eq_lit(&v, i, i + 6, "render") {
            assert(s@.subrange(i as int, i + ("render"@).len()) == "render"@);
            return true;
        }
        i = i + 1;
    }
    assert forall|j: int| 0 <= j && j + ("render"@).len() <= s@.len() implies #[trigger] s@.subrange(
        j,
        j + ("render"@).len(),
    ) != "render"@ by {
        assert(j < i);
        assert(v@.subrange(j, j + 6) != "render"@);
    }
    false
}

/// The position of the device's first node whose path contains `render`,
/// or the number of nodes.
pub fn render_node(nodes: &Vec<DeviceNodeInfo>) -> (r: usize)
    ensures
        r <= nodes@.len(),
        r < nodes@.len() ==> contains_seq(nodes@[r as int].devnode@, "render"@),
        forall|i: int| 0 <= i < r ==> !contains_seq((#[trigger] nodes@[i]).devnode@, "render"@),
{
    let mut k: usize = 0;
    while k < nodes.len()
        invariant
            k <= nodes@.len(),
            forall|i: int| 0 <= i < k ==> !contains_seq((#[trigger] nodes@[i]).devnode@, "render"@),
        decreases nodes@.len() - k,
    {
        if contains_render(nodes[k].devnode.as_str()) {
            return k;
        }
        k = k + 1;
    }
    k
}

pub open spec fn ends_with(s: Seq<char>, suf: Seq<char>) -> bool {
    suf.len() <= s.len() && s.skip(s.len() - suf.len()) == suf
}

/// What one line of the clock table says of the current clock: `None` for a
/// line that does not end in `Mhz *` (once trimmed); else the number after
/// its `:`, or why there is none.
pub open spec fn sclk_act_line(l: Seq<char>) -> Option<Result<u64, SysfsError>> {
    let tl = spec_trim(l);
    if ends_with(tl, "Mhz *"@) {
        let parts = spec_split(tl.take(tl.len() - 5), ':');
        if parts.len() < 2 {
            Some(Err(SysfsError::Malformed))
        } else {
            match spec_parse_uint(spec_trim(parts[1]), u64::MAX as int) {
                Some(v) => Some(Ok(v as u64)),
                None => Some(Err(SysfsError::InvalidNumber)),
            }
        }
    } else {
        None
    }
}

/// The current shader clock from the lines of the clock table: the value
/// of the last line marked current, 0 without one; the first marked line
/// without a number makes an error.
pub open spec fn sclk_act(ls: Seq<Seq<char>>) -> Result<u64, SysfsError>
    decreases ls.len(),
{
    if ls.len() == 0 {
        Ok(0)
    } else {
        match sclk_act(ls.drop_last()) {
            Err(e) => Err(e),
            Ok(a) => match sclk_act_line(ls.last()) {
                None => Ok(a),
                Some(r) => r,
            },
        }
    }
}

/// Whether the characters `from..to` of `v` end with `lit`.
fn ends_with_lit(v: &Vec<char>, from: usize, to: usize, lit: &str) -> (r: bool)
    requires
        from <= to <= v@.len(),
    ensures
        r == ends_with(v@.subrange(from as int, to as int), lit@),
{
    let n = lit.unicode_len();
    if n > to - from {
        return false;
    }
    let r = eq_lit(v, to - n, to, lit);
    assert(v@.subrange(from as int, to as int).skip(to - from - n) =~= v@.subrange(to - n, to as int));
    r
}

/// What the line `line` of the clock table says of the current clock.
fn act_line(line: &str) -> (r: Option<Result<u64, SysfsError>>)
    ensures
        r == sclk_act_line(line@),
{
    let lv = chars_of(line);
    let (ta, tb) = trim_range(&lv, 0, lv.len());
    assert(lv@.subrange(0, lv@.len() as int) =~= lv@);
    let ghost tl = spec_trim(line@);
    if !ends_with_lit(&lv, ta, tb, "Mhz *") {
        return None;
    }
    proof {
        reveal_strlit("Mhz *");
    }
    let body = string_of(line, ta, tb - 5);
    assert(body@ =~= tl.take(tl.len() - 5));
    let bv = chars_of(body.as_str());
    let parts = split_ranges(&bv, ':');
    if parts.len() < 2 {
        return Some(Err(SysfsError::Malformed));
    }
    let (pa, pb) = parts[1];
    let (a, b) = trim_range(&bv, pa, pb);
    match parse_uint(&bv, a, b, u64::MAX) {
        Some(x) => Some(Ok(x)),
        None => Some(Err(SysfsError::InvalidNumber)),
    }
}

/// The current shader clock (MHz) from the text of the clock table: the
/// figure of the last line marked ` *`.
pub fn sclk_freqs(text: &str) -> (r: Result<DrmDeviceFreqs, SysfsError>)
    ensures
        match sclk_act(spec_lines(text@)) {
            Ok(a) => r matches Ok(f) && f.act_freq == a && f.min_freq == 0 && f.cur_freq == 0
                && f.max_freq == 0,
            Err(e) => r == Err::<DrmDeviceFreqs, SysfsError>(e),
        },
{
    let v = chars_of(text);
    let lines = line_ranges(&v);
    let ghost ls = spec_lines(text@);
    let mut act: u64 = 0;
    let mut k: usize = 0;
    while k < lines.len()
        invariant
            v@ == text@,
            ls == spec_lines(text@),
            lines@.len() == ls.len(),
            forall|q: int|
                0 <= q < lines@.len() ==> (#[trigger] lines@[q]).0 <= lines@[q].1 <= v@.len()
                    && v@.subrange(lines@[q].0 as int, lines@[q].1 as int) == ls[q],
            k <= ls.len(),
            sclk_act(ls.take(k as int)) == Ok::<u64, SysfsError>(act),
        decreases ls.len() - k,
    {
        let (a, b) = lines[k];
        let line = string_of(text, a, b);
        proof {
            assert(ls.take(k + 1).drop_last() =~= ls.take(k as int));
            assert(ls.take(k + 1).last() == ls[k as int]);
        }
        match act_line(line.as_str()) {
            None => {},
            Some(Ok(x)) => {
                act = x;
            },
            Some(Err(e)) => {
                proof {
                    lemma_sclk_act_err_stays(ls, k as int + 1);
                }
                return Err(e);
            },
        }
        k = k + 1;
    }
    assert(ls.take(k as int) =~= ls);
    let mut f = DrmDeviceFreqs::new();
    f.act_freq = act;
    Ok(f)
}

proof fn lemma_sclk_act_err_stays(ls: Seq<Seq<char>>, n: int)
    requires
        0 <= n <= ls.len(),
        sclk_act(ls.take(n)) is Err,
    ensures
        sclk_act(ls) == sclk_act(ls.take(n)),
    decreases ls.len() - n,
{
    if n < ls.len() {
        assert(ls.take(n + 1).drop_last() =~= ls.take(n));
        lemma_sclk_act_err_stays(ls, n + 1);
    } else {
        assert(ls.take(n) =~= ls);
    }
}

/// The state of the reading of the frequency limits: the minimum and maximum
/// so far (or an error), and whether the reading stopped.
pub type SclkLimits = (Result<(u64, u64), SysfsError>, bool);

/// One line `<n>: <f>Mhz[ *]` of the clock table read into the limits
/// `(min, max)`: level 1 is skipped; level 0 sets the minimum to 0; level
/// 2 sets the maximum to its frequency and a half more; a line without
/// `:`, without `Mhz`, or of a higher level stops the reading (the last
/// also zeroing both); a level or a frequency that is not a number is an
/// error, and so is a maximum beyond 64 bits.
pub open spec fn limit_line(min: u64, max: u64, l: Seq<char>) -> SclkLimits {
    let kv = spec_split(l, ':');
    if kv.len() < 2 {
        (Ok((min, max)), true)
    } else {
        match spec_parse_uint(spec_trim(kv[0]), u32::MAX as int) {
            None => (Err(SysfsError::InvalidNumber), true),
            Some(k) => if k == 1 {
                (Ok((min, max)), false)
            } else {
                let v0 = spec_trim(kv[1]);
                let v1 = if ends_with(v0, " *"@) {
                    v0.take(v0.len() - 2)
                } else {
                    v0
                };
                if !ends_with(v1, "Mhz"@) {
                    (Ok((min, max)), true)
                } else if k == 0 {
                    (Ok((0, max)), false)
                } else if k == 2 {
                    match spec_parse_uint(v1.take(v1.len() - 3), u64::MAX as int) {
                        None => (Err(SysfsError::InvalidNumber), true),
                        Some(m) => if m + m / 2 <= u64::MAX {
                            (Ok((min, (m + m / 2) as u64)), false)
                        } else {
                            (Err(SysfsError::InvalidNumber), true)
                        },
                    }
                } else {
                    (Ok((0, 0)), true)
                }
            },
        }
    }
}

/// The frequency limits read from the lines of the clock table, from
/// `(0, 0)`.
pub open spec fn sclk_limits(ls: Seq<Seq<char>>) -> SclkLimits
    decreases ls.len(),
{
    if ls.len() == 0 {
        (Ok((0, 0)), false)
    } else {
        let p = sclk_limits(ls.drop_last());
        if p.1 {
            p
        } else {
            match p.0 {
                Err(e) => (Err(e), true),
                Ok((mn, mx)) => limit_line(mn, mx, ls.last()),
            }
        }
    }
}

proof fn lemma_sclk_limits_stays(ls: Seq<Seq<char>>, n: int)
    requires
        0 <= n <= ls.len(),
        sclk_limits(ls.take(n)).1,
    ensures
        sclk_limits(ls) == sclk_limits(ls.take(n)),
    decreases ls.len() - n,
{
    if n < ls.len() {
        assert(ls.take(n + 1).drop_last() =~= ls.take(n));
        lemma_sclk_limits_stays(ls, n + 1);
    } else {
        assert(ls.take(n) =~= ls);
    }
}

/// The minimum of the shader clock limits is always reported as 0.
pub proof fn lemma_sclk_min_zero(ls: Seq<Seq<char>>)
    ensures
        sclk_limits(ls).0 matches Ok((mn, _)) ==> mn == 0,
    decreases ls.len(),
{
    if ls.len() > 0 {
        lemma_sclk_min_zero(ls.drop_last());
    }
}

/// One line of the clock table read into the limits `(min, max)`.
fn limit_of_line(min: u64, max: u64, line: &str) -> (r: SclkLimits)
    ensures
        r == limit_line(min, max, line@),
{
    proof {
        reveal_strlit(" *");
        reveal_strlit("Mhz");
    }
    let lv = chars_of(line);
    let kv = split_ranges(&lv, ':');
    let ghost pieces = spec_split(line@, ':');
    if kv.len() < 2 {
        return (Ok((min, max)), true);
    }
    let (p0a, p0b) = kv[0];
    let (a0, b0) = trim_range(&lv, p0a, p0b);
    let k = match parse_uint(&lv, a0, b0, 0xffff_ffff) {
        None => {
            return (Err(SysfsError::InvalidNumber), true);
        },
        Some(k) => k,
    };
    if k == 1 {
        return (Ok((min, max)), false);
    }
    let (p1a, p1b) = kv[1];
    let (a1, b1) = trim_range(&lv, p1a, p1b);
    let ghost v0 = spec_trim(pieces[1]);
    let mut e = b1;
    if ends_with_lit(&lv, a1, b1, " *") {
        e = b1 - 2;
    }
    assert(lv@.subrange(a1 as int, e as int) =~= if ends_with(v0, " *"@) {
        v0.take(v0.len() - 2)
    } else {
        v0
    });
    if !ends_with_lit(&lv, a1, e, "Mhz") {
        return (Ok((min, max)), true);
    }
    if k == 0 {
        return (Ok((0, max)), false);
    }
    if k == 2 {
        assert(lv@.subrange(a1 as int, e - 3) =~= lv@.subrange(a1 as int, e as int).take(
            lv@.subrange(a1 as int, e as int).len() - 3,
        ));
        match parse_uint(&lv, a1, e - 3, u64::MAX) {
            None => {
                return (Err(SysfsError::InvalidNumber), true);
            },
            Some(m) => {
                match m.checked_add(m / 2) {
                    Some(x) => {
                        return (Ok((min, x)), false);
                    },
                    None => {
                        return (Err(SysfsError::InvalidNumber), true);
                    },
                }
            },
        }
    }
    (Ok((0, 0)), true)
}

/// The frequency limits of the shader clock from the text of the clock
/// table: the minimum is 0, the maximum half again the frequency of level
/// 2 (actual clocks exceed the table's).
pub fn sclk_freq_limits(text: &str) -> (r: Result<DrmDeviceFreqLimits, SysfsError>)
    ensures
        match sclk_limits(spec_lines(text@)).0 {
            Ok((mn, mx)) => r matches Ok(fl) && fl.name@.len() == 0 && fl.minimum == mn
                && fl.efficient == 0 && fl.maximum == mx,
            Err(e) => r == Err::<DrmDeviceFreqLimits, SysfsError>(e),
        },
{
    let v = chars_of(text);
    let lines = line_ranges(&v);
    let ghost ls = spec_lines(text@);
    let mut mn: u64 = 0;
    let mut mx: u64 = 0;
    let mut k: usize = 0;
    while k < lines.len()
        invariant
            v@ == text@,
            ls == spec_lines(text@),
            lines@.len() == ls.len(),
            forall|q: int|
                0 <= q < lines@.len() ==> (#[trigger] lines@[q]).0 <= lines@[q].1 <= v@.len()
                    && v@.subrange(lines@[q].0 as int, lines@[q].1 as int) == ls[q],
            k <= ls.len(),
            sclk_limits(ls.take(k as int)) == (Ok::<(u64, u64), SysfsError>((mn, mx)), false),
        decreases ls.len() - k,
    {
        let (a, b) = lines[k];
        let line = string_of(text, a, b);
        proof {
            assert(ls.take(k + 1).drop_last() =~= ls.take(k as int));
            assert(ls.take(k + 1).last() == ls[k as int]);
        }
        let (res, stop) = limit_of_line(mn, mx, line.as_str());
        if stop {
            proof {
                lemma_sclk_limits_stays(ls, k as int + 1);
            }
            return match res {
                Ok((x, y)) => {
                    let mut fl = DrmDeviceFreqLimits::new();
                    fl.minimum = x;
                    fl.maximum = y;
                    Ok(fl)
                },
                Err(e) => Err(e),
            };
        }
        match res {
            Ok((x, y)) => {
                mn = x;
                mx = y;
            },
            Err(e) => {
                return Err(e);
            },
        }
        k = k + 1;
    }
    assert(ls.take(k as int) =~= ls);
    let mut fl = DrmDeviceFreqLimits::new();
    fl.minimum = mn;
    fl.maximum = mx;
    Ok(fl)
}

} // verus!
