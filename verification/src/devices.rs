//! DRM devices: their kind, the figures that drivers report for them, their
//! device nodes and fans, and the PCI identity read from udev.
use vstd::prelude::*;
use vstd::seq_lib::{to_multiset_build, to_multiset_insert};

use crate::devnum::{dev_major, dev_minor, spec_dev_major, spec_dev_minor};
use crate::hwmon::{Hwmon, Sensor, SensorModel};
use crate::text::{lemma_lex_lt_irreflexive, 
    chars_of, is_prefix, lemma_lex_lt_total, lemma_lex_lt_transitive, lex_le, lex_lt,
    parse_uint, spec_parse_uint, spec_trim, starts_with_lit, str_lt, string_of, trim_range,
};

verus! {

/// How a device function is virtualized.
#[derive(Debug, Clone, Copy, PartialEq, Eq, Structural)]
pub enum VirtFn {
    NoVirt,
    SriovPF,
    SriovVF,
    VFIO,
}

/// Whether a device is integrated or discrete, and how it is virtualized.
#[derive(Debug, Clone, Copy, PartialEq, Eq, Structural)]
pub enum DrmDeviceType {
    Unknown,
    Integrated(VirtFn),
    Discrete(VirtFn),
}

impl DrmDeviceType {
    pub fn is_discrete(&self) -> (r: bool)
        ensures
            r == (*self is Discrete),
    {
        match self {
            DrmDeviceType::Discrete(_) => true,
            _ => false,
        }
    }

    pub fn is_integrated(&self) -> (r: bool)
        ensures
            r == (*self is Integrated),
    {
        match self {
            DrmDeviceType::Integrated(_) => true,
            _ => false,
        }
    }

    /// `Discrete`, `Integrated` or `Unknown`, followed by ` (PF)`, ` (VF)`
    /// or ` (VFIO)` for a virtualized function.
    pub fn to_string(&self) -> (r: String)
        ensures
            r@ == spec_dev_type_name(*self),
    {
        let (mut ret, sfn) = match *self {
            DrmDeviceType::Discrete(sfn) => (String::from_str("Discrete"), sfn),
            DrmDeviceType::Integrated(sfn) => (String::from_str("Integrated"), sfn),
            DrmDeviceType::Unknown => (String::from_str("Unknown"), VirtFn::NoVirt),
        };
        match sfn {
            VirtFn::SriovPF => ret.append(" (PF)"),
            VirtFn::SriovVF => ret.append(" (VF)"),
            VirtFn::VFIO => ret.append(" (VFIO)"),
            VirtFn::NoVirt => {},
        }
        ret
    }
}

pub open spec fn spec_virt_suffix(v: VirtFn) -> Seq<char> {
    match v {
        VirtFn::SriovPF => " (PF)"@,
        VirtFn::SriovVF => " (VF)"@,
        VirtFn::VFIO => " (VFIO)"@,
        VirtFn::NoVirt => Seq::empty(),
    }
}

pub open spec fn spec_dev_type_name(t: DrmDeviceType) -> Seq<char> {
    match t {
        DrmDeviceType::Discrete(v) => "Discrete"@ + spec_virt_suffix(v),
        DrmDeviceType::Integrated(v) => "Integrated"@ + spec_virt_suffix(v),
        DrmDeviceType::Unknown => "Unknown"@,
    }
}

/// Why a device reports its frequency is throttled.
#[derive(Debug, Clone, Copy, PartialEq, Eq, Structural)]
pub struct DrmDeviceThrottleReasons {
    pub pl1: bool,
    pub pl2: bool,
    pub pl4: bool,
    pub prochot: bool,
    pub ratl: bool,
    pub thermal: bool,
    pub vr_tdc: bool,
    pub vr_thermalert: bool,
    pub status: bool,
}

impl DrmDeviceThrottleReasons {
    /// No reason set.
    pub fn new() -> (r: DrmDeviceThrottleReasons)
        ensures
            r == (DrmDeviceThrottleReasons {
                pl1: false,
                pl2: false,
                pl4: false,
                prochot: false,
                ratl: false,
                thermal: false,
                vr_tdc: false,
                vr_thermalert: false,
                status: false,
            }),
    {
        DrmDeviceThrottleReasons {
            pl1: false,
            pl2: false,
            pl4: false,
            prochot: false,
            ratl: false,
            thermal: false,
            vr_tdc: false,
            vr_thermalert: false,
            status: false,
        }
    }
}

/// The frequency limits of one of a device's clock domains.
#[derive(Debug)]
pub struct DrmDeviceFreqLimits {
    pub name: String,
    pub minimum: u64,
    pub efficient: u64,
    pub maximum: u64,
}

impl DrmDeviceFreqLimits {
    pub fn new() -> (r: DrmDeviceFreqLimits)
        ensures
            r.name@ == Seq::<char>::empty(),
            r.minimum == 0,
            r.efficient == 0,
            r.maximum == 0,
    {
        DrmDeviceFreqLimits { name: String::new(), minimum: 0, efficient: 0, maximum: 0 }
    }
}

/// The frequencies of one of a device's clock domains.
#[derive(Debug, Clone, Copy, PartialEq, Eq, Structural)]
pub struct DrmDeviceFreqs {
    pub min_freq: u64,
    pub cur_freq: u64,
    pub act_freq: u64,
    pub max_freq: u64,
    pub throttle_reasons: DrmDeviceThrottleReasons,
}

impl DrmDeviceFreqs {
    pub fn new() -> (r: DrmDeviceFreqs)
        ensures
            r.min_freq == 0 && r.cur_freq == 0 && r.act_freq == 0 && r.max_freq == 0,
            r.throttle_reasons == DrmDeviceThrottleReasons::spec_none(),
    {
        DrmDeviceFreqs {
            min_freq: 0,
            cur_freq: 0,
            act_freq: 0,
            max_freq: 0,
            throttle_reasons: DrmDeviceThrottleReasons::new(),
        }
    }
}

impl DrmDeviceThrottleReasons {
    pub open spec fn spec_none() -> DrmDeviceThrottleReasons {
        DrmDeviceThrottleReasons {
            pl1: false,
            pl2: false,
            pl4: false,
            prochot: false,
            ratl: false,
            thermal: false,
            vr_tdc: false,
            vr_thermalert: false,
            status: false,
        }
    }
}

/// A device's memory: total and used bytes of system memory and VRAM.
#[derive(Debug, Clone, Copy, PartialEq, Eq, Structural)]
pub struct DrmDeviceMemInfo {
    pub smem_total: u64,
    pub smem_used: u64,
    pub vram_total: u64,
    pub vram_used: u64,
}

impl DrmDeviceMemInfo {
    pub fn new() -> (r: DrmDeviceMemInfo)
        ensures
            r == (DrmDeviceMemInfo { smem_total: 0, smem_used: 0, vram_total: 0, vram_used: 0 }),
    {
        DrmDeviceMemInfo { smem_total: 0, smem_used: 0, vram_total: 0, vram_used: 0 }
    }
}

/// Why a device's data was refused.
#[derive(Debug, Clone, Copy, PartialEq, Eq, Structural)]
pub enum DeviceError {
    /// A device node whose major number is not DRM's.
    NotDrmMajor,
    /// A sensor's value could not be read.
    SensorUnreadable,
    /// A sensor's value is not a decimal number.
    SensorInvalid,
}

/// One fan and its speed (RPM).
#[derive(Debug)]
pub struct DrmDeviceFan {
    pub name: String,
    pub speed: u64,
}

/// The text that the caller read from one sensor's `input` file (`None`
/// when the read failed).
pub struct SensorReading {
    pub stype: String,
    pub text: Option<String>,
}

/// Index of the first reading of sensor `st`, or the number of readings.
pub open spec fn reading_index_from(rs: Seq<SensorReading>, st: Seq<char>, i: int) -> int
    decreases rs.len() - i,
{
    if i < 0 || i >= rs.len() {
        rs.len() as int
    } else if rs[i].stype@ == st {
        i
    } else {
        reading_index_from(rs, st, i + 1)
    }
}

/// The value of sensor `st`'s input: the trimmed text read for it, as a
/// decimal number.
pub open spec fn sensor_value(rs: Seq<SensorReading>, st: Seq<char>) -> Result<u64, DeviceError> {
    let j = reading_index_from(rs, st, 0);
    if j >= rs.len() {
        Err(DeviceError::SensorUnreadable)
    } else {
        match rs[j].text {
            None => Err(DeviceError::SensorUnreadable),
            Some(t) => match spec_parse_uint(spec_trim(t@), u64::MAX as int) {
                Some(x) => Ok(x as u64),
                None => Err(DeviceError::SensorInvalid),
            },
        }
    }
}

/// The name a sensor of the kind `prefix` (`fan`, `temp`) is shown by: its
/// label, else its number.
pub open spec fn input_name(s: SensorModel, prefix: Seq<char>) -> Seq<char> {
    if s.label.len() == 0 {
        s.stype.skip(prefix.len() as int)
    } else {
        s.label
    }
}

/// The sensors of `ss` (of the kind `prefix`) that have an input, in order,
/// as (name, value); the first sensor whose input cannot be read gives the
/// error.
pub open spec fn inputs_of(ss: Seq<SensorModel>, rs: Seq<SensorReading>, prefix: Seq<char>) -> Result<
    Seq<(Seq<char>, u64)>,
    DeviceError,
>
    decreases ss.len(),
{
    if ss.len() == 0 {
        Ok(Seq::empty())
    } else {
        match inputs_of(ss.drop_last(), rs, prefix) {
            Err(e) => Err(e),
            Ok(prev) => {
                let s = ss.last();
                if !s.items.contains("input"@) {
                    Ok(prev)
                } else {
                    match sensor_value(rs, s.stype) {
                        Err(e) => Err(e),
                        Ok(v) => Ok(prev.push((input_name(s, prefix), v))),
                    }
                }
            },
        }
    }
}

pub open spec fn fan_view(f: DrmDeviceFan) -> (Seq<char>, u64) {
    (f.name@, f.speed)
}

pub open spec fn fans_sorted(s: Seq<(Seq<char>, u64)>) -> bool {
    forall|i: int, j: int| 0 <= i < j < s.len() ==> lex_le(#[trigger] s[i].0, #[trigger] s[j].0)
}

/// The value read for sensor `st` among `readings`.
pub fn read_sensor(readings: &Vec<SensorReading>, st: &str) -> (r: Result<u64, DeviceError>)
    ensures
        r == sensor_value(readings@, st@),
{
    let mut j: usize = 0;
    while j < readings.len() && !crate::hwmon::str_eq(readings[j].stype.as_str(), st)
        invariant
            j <= readings@.len(),
            reading_index_from(readings@, st@, 0) == reading_index_from(readings@, st@, j as int),
        decreases readings@.len() - j,
    {
        j = j + 1;
    }
    if j >= readings.len() {
        return Err(DeviceError::SensorUnreadable);
    }
    match &readings[j].text {
        None => Err(DeviceError::SensorUnreadable),
        Some(t) => {
            let v = chars_of(t.as_str());
            let (a, b) = trim_range(&v, 0, v.len());
            assert(v@.subrange(0, v@.len() as int) =~= v@);
            match parse_uint(&v, a, b, u64::MAX) {
                Some(x) => Ok(x),
                None => Err(DeviceError::SensorInvalid),
            }
        },
    }
}

/// The names and speeds of the fans `v`.
pub open spec fn fan_views(v: Seq<DrmDeviceFan>) -> Seq<(Seq<char>, u64)> {
    v.map_values(|f: DrmDeviceFan| fan_view(f))
}

/// A fan named `n`.
pub open spec fn fan_named(n: Seq<char>) -> spec_fn((Seq<char>, u64)) -> bool {
    |e: (Seq<char>, u64)| e.0 == n
}

proof fn lemma_no_fan_named(s: Seq<(Seq<char>, u64)>, n: Seq<char>)
    requires
        forall|i: int| 0 <= i < s.len() ==> (#[trigger] s[i]).0 != n,
    ensures
        s.filter(fan_named(n)) == Seq::<(Seq<char>, u64)>::empty(),
    decreases s.len(),
{
    reveal(Seq::filter);
    if s.len() > 0 {
        lemma_no_fan_named(s.drop_last(), n);
    }
}

/// Inserting `x` where every fan before has a name not above its name and
/// every fan after one above it: the fans named as `x` gain `x` last.
proof fn lemma_fan_insert_filter(rs: Seq<(Seq<char>, u64)>, p: int, x: (Seq<char>, u64), n: Seq<char>)
    requires
        0 <= p <= rs.len(),
        forall|i: int| p <= i < rs.len() ==> (#[trigger] rs[i]).0 != x.0,
    ensures
        rs.insert(p, x).filter(fan_named(n)) == if x.0 == n {
            rs.filter(fan_named(n)).push(x)
        } else {
            rs.filter(fan_named(n))
        },
{
    let a = rs.take(p);
    let b = rs.skip(p);
    assert(rs =~= a + b);
    assert(rs.insert(p, x) =~= a + (seq![x] + b));
    Seq::filter_distributes_over_add(a, b, fan_named(n));
    Seq::filter_distributes_over_add(a, seq![x] + b, fan_named(n));
    Seq::filter_distributes_over_add(seq![x], b, fan_named(n));
    reveal(Seq::filter);
    let e = Seq::<(Seq<char>, u64)>::empty();
    assert(seq![x] =~= e.push(x));
    e.lemma_filter_push(x, fan_named(n));
    assert(e.filter(fan_named(n)) =~= e);
    if x.0 == n {
        lemma_no_fan_named(b, n);
        assert(seq![x].filter(fan_named(n)) =~= seq![x]);
        assert(a.filter(fan_named(n)) + (seq![x] + Seq::<(Seq<char>, u64)>::empty()) =~= (a.filter(
            fan_named(n),
        ) + Seq::<(Seq<char>, u64)>::empty()).push(x));
    } else {
        assert(seq![x].filter(fan_named(n)) =~= Seq::<(Seq<char>, u64)>::empty());
        assert(Seq::<(Seq<char>, u64)>::empty() + b.filter(fan_named(n)) =~= b.filter(fan_named(n)));
    }
}

/// `v` ordered by fan name, as a stable sort does: fans of the same name
/// keep their order.
pub fn sort_fans(v: Vec<DrmDeviceFan>) -> (r: Vec<DrmDeviceFan>)
    ensures
        r@.map_values(|f: DrmDeviceFan| fan_view(f)).to_multiset() == v@.map_values(
            |f: DrmDeviceFan| fan_view(f),
        ).to_multiset(),
        fans_sorted(r@.map_values(|f: DrmDeviceFan| fan_view(f))),
        forall|n: Seq<char>| #[trigger] fan_views(r@).filter(fan_named(n)) == fan_views(v@).filter(fan_named(n)),
{
    let ghost vs = v@.map_values(|f: DrmDeviceFan| fan_view(f));
    let mut r: Vec<DrmDeviceFan> = Vec::new();
    let mut rest = v;
    let mut k: usize = 0;
    let n0 = rest.len();
    assert(vs.take(0) =~= Seq::<(Seq<char>, u64)>::empty());
    assert(r@.map_values(|f: DrmDeviceFan| fan_view(f)) =~= Seq::<(Seq<char>, u64)>::empty());
    proof {
        reveal(Seq::filter);
    }
    while rest.len() > 0
        invariant
            k <= vs.len() == n0,
            rest@.map_values(|f: DrmDeviceFan| fan_view(f)) == vs.skip(k as int),
            r@.map_values(|f: DrmDeviceFan| fan_view(f)).to_multiset() == vs.take(k as int).to_multiset(),
            fans_sorted(r@.map_values(|f: DrmDeviceFan| fan_view(f))),
            vs == fan_views(v@),
            forall|n: Seq<char>| #[trigger] fan_views(r@).filter(fan_named(n)) == vs.take(k as int).filter(fan_named(n)),
        decreases rest@.len(),
    {
        let ghost rv = rest@;
        assert(rv.map_values(|f: DrmDeviceFan| fan_view(f)).len() == rv.len());
        assert(k < vs.len());
        let x = rest.remove(0);
        proof {
            assert(rest@ =~= rv.skip(1));
            assert(fan_view(x) == rv.map_values(|f: DrmDeviceFan| fan_view(f))[0]);
            assert(vs.skip(k as int)[0] == vs[k as int]);
            assert(rest@.map_values(|f: DrmDeviceFan| fan_view(f)) =~= rv.map_values(
                |f: DrmDeviceFan| fan_view(f),
            ).skip(1));
            assert(vs.skip(k as int).skip(1) =~= vs.skip(k + 1));
        }
        let ghost rs = r@.map_values(|f: DrmDeviceFan| fan_view(f));
        let mut p: usize = 0;
        while p < r.len() && !str_lt(x.name.as_str(), r[p].name.as_str())
            invariant
                p <= r@.len(),
                rs == r@.map_values(|f: DrmDeviceFan| fan_view(f)),
                forall|q: int| 0 <= q < p ==> !lex_lt(x.name@, #[trigger] rs[q].0),
            decreases r@.len() - p,
        {
            assert(rs[p as int] == fan_view(r@[p as int]));
            p = p + 1;
        }
        proof {
            if p < r@.len() {
                assert(rs[p as int] == fan_view(r@[p as int]));
            }
        }
        let ghost before = r@;
        let ghost xv = fan_view(x);
        r.insert(p, x);
        let ghost ns = r@.map_values(|f: DrmDeviceFan| fan_view(f));
        proof {
            assert(r@ == before.insert(p as int, x));
            assert(ns =~= rs.insert(p as int, xv));
            to_multiset_insert(rs, p as int, xv);
            assert(vs.take(k + 1) =~= vs.take(k as int).push(vs[k as int]));
            to_multiset_build(vs.take(k as int), vs[k as int]);
            assert(vs[k as int] == xv);
            assert forall|i: int, j: int| 0 <= i < j < ns.len() implies lex_le(
                #[trigger] ns[i].0,
                #[trigger] ns[j].0,
            ) by {
                if j < p {
                    assert(ns[i] == rs[i] && ns[j] == rs[j]);
                } else if j == p {
                    assert(ns[i] == rs[i]);
                    lemma_lex_lt_total(rs[i].0, xv.0);
                } else if i == p {
                    assert(ns[j] == rs[j - 1]);
                    if p < rs.len() {
                        assert(lex_lt(xv.0, rs[p as int].0));
                        assert(lex_le(rs[p as int].0, rs[j - 1].0));
                        if rs[p as int].0 != rs[j - 1].0 {
                            lemma_lex_lt_transitive(xv.0, rs[p as int].0, rs[j - 1].0);
                        }
                    }
                } else if i < p {
                    assert(ns[i] == rs[i] && ns[j] == rs[j - 1]);
                } else {
                    assert(ns[i] == rs[i - 1] && ns[j] == rs[j - 1]);
                }
            }
            assert forall|i: int| p <= i < rs.len() implies (#[trigger] rs[i]).0 != xv.0 by {
                assert(lex_lt(xv.0, rs[p as int].0));
                if i > p {
                    assert(lex_le(rs[p as int].0, rs[i].0));
                    if rs[p as int].0 != rs[i].0 {
                        lemma_lex_lt_transitive(xv.0, rs[p as int].0, rs[i].0);
                    }
                }
                lemma_lex_lt_irreflexive(xv.0);
            }
            assert(fan_views(r@) == ns);
            assert(fan_views(before) == rs);
            assert forall|n: Seq<char>|
                #[trigger] fan_views(r@).filter(fan_named(n)) == vs.take(k + 1).filter(fan_named(n)) by {
                lemma_fan_insert_filter(rs, p as int, xv, n);
                vs.take(k as int).lemma_filter_push(xv, fan_named(n));
            }
        }
        k = k + 1;
    }
    assert(vs.take(k as int) =~= vs);
    r
}

/// The sensors of `hwmon` of the kind `prefix`, by name: each sensor whose
/// type starts with `prefix` and that has an input, named by its label or
/// else its number, with the value read for it in `readings`.
fn inputs_from_hwmon(hwmon: &Hwmon, prefix: &str, readings: &Vec<SensorReading>) -> (r: Result<
    Vec<DrmDeviceFan>,
    DeviceError,
>)
    ensures
        match inputs_of(
            hwmon.model().filter(|s: SensorModel| is_prefix(prefix@, s.stype)),
            readings@,
            prefix@,
        ) {
            Err(e) => r == Err::<Vec<DrmDeviceFan>, DeviceError>(e),
            Ok(fs) => r matches Ok(v) && v@.map_values(|f: DrmDeviceFan| fan_view(f)).to_multiset()
                == fs.to_multiset() && fans_sorted(v@.map_values(|f: DrmDeviceFan| fan_view(f)))
                && forall|n: Seq<char>| #[trigger] fan_views(v@).filter(fan_named(n)) == fs.filter(fan_named(n)),
        },
{
    let slist = hwmon.sensors(prefix);
    let ghost ss = slist@.map_values(|s: &Sensor| s@);
    let mut fans: Vec<DrmDeviceFan> = Vec::new();
    let mut k: usize = 0;
    assert(ss.take(0) =~= Seq::<SensorModel>::empty());
    assert(fans@.map_values(|f: DrmDeviceFan| fan_view(f)) =~= Seq::<(Seq<char>, u64)>::empty());
    let ghost full = hwmon.model().filter(|s: SensorModel| is_prefix(prefix@, s.stype));
    proof {
        assert forall|i: int| 0 <= i < ss.len() implies is_prefix(prefix@, #[trigger] ss[i].stype) by {
            hwmon.model().lemma_filter_pred(|s: SensorModel| is_prefix(prefix@, s.stype), i);
        }
    }
    while k < slist.len()
        invariant
            k <= slist@.len(),
            ss == slist@.map_values(|s: &Sensor| s@),
            ss == full,
            full == hwmon.model().filter(|s: SensorModel| is_prefix(prefix@, s.stype)),
            forall|i: int| 0 <= i < ss.len() ==> is_prefix(prefix@, #[trigger] ss[i].stype),
            inputs_of(ss.take(k as int), readings@, prefix@) == Ok::<Seq<(Seq<char>, u64)>, DeviceError>(
                fans@.map_values(|f: DrmDeviceFan| fan_view(f)),
            ),
        decreases slist@.len() - k,
    {
        let s: &Sensor = slist[k];
        proof {
            assert(ss.take(k + 1).drop_last() =~= ss.take(k as int));
            assert(ss.take(k + 1).last() == s@);
            reveal_strlit("input");
        }
        if s.has_item("input") {
            let name = if s.label.as_str().unicode_len() == 0 {
                let n = s.stype.as_str().unicode_len();
                let pl = prefix.unicode_len();
                if n >= pl {
                    string_of(s.stype.as_str(), pl, n)
                } else {
                    String::new()
                }
            } else {
                s.label.clone()
            };
            assert(name@ == input_name(s@, prefix@)) by {
                assert(is_prefix(prefix@, ss[k as int].stype));
                if s@.label.len() == 0 {
                    assert(s@.stype.subrange(prefix@.len() as int, s@.stype.len() as int) =~= s@.stype.skip(
                        prefix@.len() as int,
                    ));
                }
            }
            let speed = match read_sensor(readings, s.stype.as_str()) {
                Ok(x) => x,
                Err(e) => {
                    proof {
                        assert(s@.items.contains("input"@));
                        assert(inputs_of(ss.take(k + 1), readings@, prefix@) == Err::<Seq<(Seq<char>, u64)>, DeviceError>(e));
                        lemma_inputs_of_err_prefix(ss, readings@, prefix@, k + 1);
                    }
                    return Err(e);
                },
            };
            let ghost before = fans@;
            let f = DrmDeviceFan { name, speed };
            fans.push(f);
            assert(fans@.map_values(|f: DrmDeviceFan| fan_view(f)) =~= before.map_values(
                |f: DrmDeviceFan| fan_view(f),
            ).push(fan_view(f)));
        }
        k = k + 1;
    }
    assert(ss.take(k as int) =~= ss);
    assert(fan_views(fans@) == fans@.map_values(|f: DrmDeviceFan| fan_view(f)));
    Ok(sort_fans(fans))
}

impl DrmDeviceFan {
    /// The fans of the hwmon sensors `hwmon`, by name: each `fan*` sensor
    /// with an input, named by its label or else its number, its speed the
    /// value read for it in `readings`.
    pub fn from_hwmon(hwmon: &Hwmon, readings: &Vec<SensorReading>) -> (r: Result<Vec<DrmDeviceFan>, DeviceError>)
        ensures
            match inputs_of(hwmon.model().filter(|s: SensorModel| is_prefix("fan"@, s.stype)), readings@, "fan"@) {
                Err(e) => r == Err::<Vec<DrmDeviceFan>, DeviceError>(e),
                Ok(fs) => r matches Ok(v) && v@.map_values(|f: DrmDeviceFan| fan_view(f)).to_multiset()
                    == fs.to_multiset() && fans_sorted(v@.map_values(|f: DrmDeviceFan| fan_view(f)))
                    && forall|n: Seq<char>| #[trigger] fan_views(v@).filter(fan_named(n)) == fs.filter(fan_named(n)),
            },
    {
        inputs_from_hwmon(hwmon, "fan", readings)
    }
}

/// A temperature sensor and its reading, in thousandths of a degree Celsius
/// as hwmon gives it.
#[derive(Debug)]
pub struct DrmDeviceTemperature {
    pub name: String,
    pub millidegrees: u64,
}

pub open spec fn temp_view(t: DrmDeviceTemperature) -> (Seq<char>, u64) {
    (t.name@, t.millidegrees)
}

/// The names and readings of the temperatures `v`.
pub open spec fn temp_views(v: Seq<DrmDeviceTemperature>) -> Seq<(Seq<char>, u64)> {
    v.map_values(|t: DrmDeviceTemperature| temp_view(t))
}

impl DrmDeviceTemperature {
    /// The temperatures of the hwmon sensors `hwmon`, by name: each `temp*`
    /// sensor with an input, named by its label or else its number, its
    /// reading the value read for it in `readings`.
    pub fn from_hwmon(hwmon: &Hwmon, readings: &Vec<SensorReading>) -> (r: Result<
        Vec<DrmDeviceTemperature>,
        DeviceError,
    >)
        ensures
            match inputs_of(hwmon.model().filter(|s: SensorModel| is_prefix("temp"@, s.stype)), readings@, "temp"@) {
                Err(e) => r == Err::<Vec<DrmDeviceTemperature>, DeviceError>(e),
                Ok(ts) => r matches Ok(v) && temp_views(v@).to_multiset() == ts.to_multiset()
                    && fans_sorted(temp_views(v@))
                    && forall|n: Seq<char>| #[trigger] temp_views(v@).filter(fan_named(n)) == ts.filter(fan_named(n)),
            },
    {
        let fs = match inputs_from_hwmon(hwmon, "temp", readings) {
            Ok(fs) => fs,
            Err(e) => {
                return Err(e);
            },
        };
        let ghost fv = fan_views(fs@);
        let mut temps: Vec<DrmDeviceTemperature> = Vec::new();
        let mut k: usize = 0;
        while k < fs.len()
            invariant
                k <= fs@.len(),
                fv == fan_views(fs@),
                temp_views(temps@) == fv.take(k as int),
            decreases fs@.len() - k,
        {
            let t = DrmDeviceTemperature { name: fs[k].name.clone(), millidegrees: fs[k].speed };
            let ghost before = temps@;
            temps.push(t);
            assert(temp_views(temps@) =~= temp_views(before).push(temp_view(t)));
            assert(fv.take(k + 1) =~= fv.take(k as int).push(fv[k as int]));
            k = k + 1;
        }
        assert(fv.take(k as int) =~= fv);
        Ok(temps)
    }
}

proof fn lemma_inputs_of_err_prefix(ss: Seq<SensorModel>, rs: Seq<SensorReading>, prefix: Seq<char>, n: int)
    requires
        0 <= n <= ss.len(),
        inputs_of(ss.take(n), rs, prefix) is Err,
    ensures
        inputs_of(ss, rs, prefix) == inputs_of(ss.take(n), rs, prefix),
    decreases ss.len() - n,
{
    if n < ss.len() {
        assert(ss.take(n + 1).drop_last() =~= ss.take(n));
        lemma_inputs_of_err_prefix(ss, rs, prefix, n + 1);
    } else {
        assert(ss.take(n) =~= ss);
    }
}

/// A device node of a DRM device.
#[derive(Debug)]
pub struct DeviceNodeInfo {
    pub devnode: String,
    pub major: u32,
    pub minor: u32,
}

pub const DRM_DEVNODE_MAJOR: u32 = 226;

impl DeviceNodeInfo {
    /// The node `devnode` with device number `devnum`, which must be a DRM
    /// one.
    pub fn from_drm(devnode: String, devnum: u64) -> (r: Result<DeviceNodeInfo, DeviceError>)
        ensures
            spec_dev_major(devnum) != DRM_DEVNODE_MAJOR ==> r == Err::<DeviceNodeInfo, DeviceError>(
                DeviceError::NotDrmMajor,
            ),
            spec_dev_major(devnum) == DRM_DEVNODE_MAJOR ==> (r matches Ok(n) && n.devnode == devnode
                && n.major == DRM_DEVNODE_MAJOR && n.minor == spec_dev_minor(devnum)),
    {
        let mj = dev_major(devnum);
        let mn = dev_minor(devnum);
        if mj != DRM_DEVNODE_MAJOR {
            return Err(DeviceError::NotDrmMajor);
        }
        Ok(DeviceNodeInfo { devnode, major: DRM_DEVNODE_MAJOR, minor: mn })
    }
}

/// The vendor and device ids of a `PCI_ID` value (`vvvv:dddd`): its
/// characters 0..4 and 5..9.
pub fn pci_ids(pciid: &str) -> (r: (String, String))
    requires
        pciid@.len() >= 9,
    ensures
        r.0@ == pciid@.subrange(0, 4),
        r.1@ == pciid@.subrange(5, 9),
{
    (string_of(pciid, 0, 4), string_of(pciid, 5, 9))
}

/// A device's revision as shown: the `revision` attribute without its `0x`
/// prefix.
pub open spec fn spec_revision_of(rev: Seq<char>) -> Seq<char> {
    if is_prefix("0x"@, rev) {
        rev.skip(2)
    } else {
        rev
    }
}

pub fn revision_of(rev: &str) -> (r: String)
    ensures
        r@ == spec_revision_of(rev@),
{
    let v = chars_of(rev);
    let n = v.len();
    assert(v@.subrange(0, n as int) =~= v@);
    proof {
        reveal_strlit("0x");
    }
    if starts_with_lit(&v, 0, n, "0x") {
        assert(rev@.subrange(2, n as int) =~= rev@.skip(2));
        string_of(rev, 2, n)
    } else {
        String::from_str(rev)
    }
}

/// Whether a device in slot `sysname` is watched: every device is when no
/// slot was asked for.
pub fn slot_selected(dev_slots: &Vec<&str>, sysname: &str) -> (r: bool)
    ensures
        r == (dev_slots@.len() == 0 || exists|i: int| 0 <= i < dev_slots@.len() && (#[trigger] dev_slots@[i])@ == sysname@),
{
    if dev_slots.len() == 0 {
        return true;
    }
    let mut k: usize = 0;
    while k < dev_slots.len()
        invariant
            k <= dev_slots@.len(),
            forall|i: int| 0 <= i < k ==> (#[trigger] dev_slots@[i])@ != sysname@,
        decreases dev_slots@.len() - k,
    {
        if crate::hwmon::str_eq(dev_slots[k], sysname) {
            return true;
        }
        k = k + 1;
    }
    false
}

} // verus!
