//! Power and temperature of Intel GPUs: which hwmon sensors report a
//! discrete GPU's power or energy, the energy counter deltas, counters read
//! from model-specific registers (MSRs) and summed across their 32-bit
//! wrap, and the package temperature.
use vstd::prelude::*;

use crate::drivers::SysfsError;
use crate::hwmon::{str_eq, Hwmon, Sensor, SensorModel};
use crate::text::is_prefix;

verus! {

/// How a discrete GPU's power is read from hwmon: from `power*` sensors
/// directly, or from `energy*` counters over time.
#[derive(Debug, Clone, Copy, PartialEq, Eq, Structural)]
pub enum PowerMethod {
    Power,
    Energy,
}

/// The hwmon sensors, and their items, that give the GPU's and the card's
/// figures (empty when there is none).
#[derive(Debug)]
pub struct SensorSet {
    pub gpu_sensor: String,
    pub pkg_sensor: String,
    pub gpu_item: String,
    pub pkg_item: String,
}

pub struct SensorSetModel {
    pub gpu_sensor: Seq<char>,
    pub pkg_sensor: Seq<char>,
    pub gpu_item: Seq<char>,
    pub pkg_item: Seq<char>,
}

impl View for SensorSet {
    type V = SensorSetModel;

    open spec fn view(&self) -> SensorSetModel {
        SensorSetModel {
            gpu_sensor: self.gpu_sensor@,
            pkg_sensor: self.pkg_sensor@,
            gpu_item: self.gpu_item@,
            pkg_item: self.pkg_item@,
        }
    }
}

pub open spec fn empty_sensor_set() -> SensorSetModel {
    SensorSetModel {
        gpu_sensor: Seq::empty(),
        pkg_sensor: Seq::empty(),
        gpu_item: Seq::empty(),
        pkg_item: Seq::empty(),
    }
}

/// A sensor labelled `pkg`, or not labelled, reports the GPU; one labelled
/// `card` reports the card.
pub open spec fn is_gpu_label(l: Seq<char>) -> bool {
    l == "pkg"@ || l.len() == 0
}

/// The item a power sensor is read from: `input` when it has one, else
/// `average`.
pub open spec fn power_item(s: SensorModel) -> Seq<char> {
    if s.items.contains("input"@) {
        "input"@
    } else {
        "average"@
    }
}

/// One `power*` sensor considered: one with an `input` or `average` item
/// becomes the GPU's or the card's sensor, by its label.
pub open spec fn power_step(st: SensorSetModel, s: SensorModel) -> SensorSetModel {
    if s.items.contains("input"@) || s.items.contains("average"@) {
        if is_gpu_label(s.label) {
            SensorSetModel { gpu_sensor: s.stype, gpu_item: power_item(s), ..st }
        } else if s.label == "card"@ {
            SensorSetModel { pkg_sensor: s.stype, pkg_item: power_item(s), ..st }
        } else {
            st
        }
    } else {
        st
    }
}

/// One `energy*` sensor considered: one with an `input` item becomes the
/// GPU's or the card's sensor, by its label.
pub open spec fn energy_step(st: SensorSetModel, s: SensorModel) -> SensorSetModel {
    if s.items.contains("input"@) {
        if is_gpu_label(s.label) {
            SensorSetModel { gpu_sensor: s.stype, gpu_item: "input"@, ..st }
        } else if s.label == "card"@ {
            SensorSetModel { pkg_sensor: s.stype, pkg_item: "input"@, ..st }
        } else {
            st
        }
    } else {
        st
    }
}

/// The sensors considered in order, from `st`: a later match replaces an
/// earlier one.
pub open spec fn power_pass(st: SensorSetModel, ss: Seq<SensorModel>) -> SensorSetModel
    decreases ss.len(),
{
    if ss.len() == 0 {
        st
    } else {
        power_step(power_pass(st, ss.drop_last()), ss.last())
    }
}

pub open spec fn energy_pass(st: SensorSetModel, ss: Seq<SensorModel>) -> SensorSetModel
    decreases ss.len(),
{
    if ss.len() == 0 {
        st
    } else {
        energy_step(energy_pass(st, ss.drop_last()), ss.last())
    }
}

/// A power sensor that can give the GPU's power: it has an `input` or an
/// `average` item and is labelled `pkg` or not labelled.
pub open spec fn gpu_power_candidate(s: SensorModel) -> bool {
    (s.items.contains("input"@) || s.items.contains("average"@)) && (s.label == "pkg"@ || s.label.len() == 0)
}

/// A power sensor that can give the card's power: it has an `input` or an
/// `average` item and is labelled `card`.
pub open spec fn card_power_candidate(s: SensorModel) -> bool {
    (s.items.contains("input"@) || s.items.contains("average"@)) && s.label == "card"@
}

/// An energy sensor that can give the GPU's energy: it has an `input` item
/// and is labelled `pkg` or not labelled.
pub open spec fn gpu_energy_candidate(s: SensorModel) -> bool {
    s.items.contains("input"@) && (s.label == "pkg"@ || s.label.len() == 0)
}

/// An energy sensor that can give the card's energy: it has an `input`
/// item and is labelled `card`.
pub open spec fn card_energy_candidate(s: SensorModel) -> bool {
    s.items.contains("input"@) && s.label == "card"@
}

/// In the power pass the GPU's sensor is the last of the sensors considered
/// that can give the GPU's power, read from `input` when it has one and
/// else from `average`; the card's is the last that can give the card's
/// power, likewise. Where no sensor can, the state it started from stays.
pub proof fn lemma_power_pass_picks_last(st: SensorSetModel, ss: Seq<SensorModel>)
    ensures
        ({
            let r = power_pass(st, ss);
            &&& (exists|i: int|
                0 <= i < ss.len() && gpu_power_candidate(#[trigger] ss[i]) && r.gpu_sensor == ss[i].stype
                    && r.gpu_item == (if ss[i].items.contains("input"@) { "input"@ } else { "average"@ })
                    && forall|k: int| i < k < ss.len() ==> !gpu_power_candidate(#[trigger] ss[k]))
                || ((forall|k: int| 0 <= k < ss.len() ==> !gpu_power_candidate(#[trigger] ss[k]))
                && r.gpu_sensor == st.gpu_sensor && r.gpu_item == st.gpu_item)
            &&& (exists|i: int|
                0 <= i < ss.len() && card_power_candidate(#[trigger] ss[i]) && r.pkg_sensor == ss[i].stype
                    && r.pkg_item == (if ss[i].items.contains("input"@) { "input"@ } else { "average"@ })
                    && forall|k: int| i < k < ss.len() ==> !card_power_candidate(#[trigger] ss[k]))
                || ((forall|k: int| 0 <= k < ss.len() ==> !card_power_candidate(#[trigger] ss[k]))
                && r.pkg_sensor == st.pkg_sensor && r.pkg_item == st.pkg_item)
        }),
    decreases ss.len(),
{
    reveal_strlit("pkg");
    reveal_strlit("card");
    if ss.len() > 0 {
        let pre = ss.drop_last();
        lemma_power_pass_picks_last(st, pre);
        let s = ss.last();
        let n = ss.len() - 1;
        assert(ss[n] == s);
        assert forall|k: int| 0 <= k < pre.len() implies #[trigger] pre[k] == ss[k] by {}
        let r = power_pass(st, ss);
        assert(r == power_step(power_pass(st, pre), s));
        if gpu_power_candidate(s) {
            assert(is_gpu_label(s.label));
            assert(r.gpu_sensor == ss[n].stype);
            assert(r.gpu_item == power_item(s));
        } else {
            assert(r.gpu_sensor == power_pass(st, pre).gpu_sensor);
            assert(r.gpu_item == power_pass(st, pre).gpu_item);
        }
        if card_power_candidate(s) {
            assert(("card"@).len() == 4 && ("pkg"@).len() == 3);
            assert(!is_gpu_label(s.label));
            assert(r.pkg_sensor == ss[n].stype);
        } else {
            assert(r.pkg_sensor == power_pass(st, pre).pkg_sensor);
            assert(r.pkg_item == power_pass(st, pre).pkg_item);
        }
        if !gpu_power_candidate(s) {
            if exists|i: int|
                0 <= i < pre.len() && gpu_power_candidate(#[trigger] pre[i]) && power_pass(st, pre).gpu_sensor
                    == pre[i].stype && power_pass(st, pre).gpu_item == (if pre[i].items.contains("input"@) {
                    "input"@
                } else {
                    "average"@
                }) && forall|k: int| i < k < pre.len() ==> !gpu_power_candidate(#[trigger] pre[k]) {
                let i = choose|i: int|
                    0 <= i < pre.len() && gpu_power_candidate(#[trigger] pre[i]) && power_pass(st, pre).gpu_sensor
                        == pre[i].stype && power_pass(st, pre).gpu_item == (if pre[i].items.contains("input"@) {
                        "input"@
                    } else {
                        "average"@
                    }) && forall|k: int| i < k < pre.len() ==> !gpu_power_candidate(#[trigger] pre[k]);
                assert(ss[i] == pre[i]);
                assert forall|k: int| i < k < ss.len() implies !gpu_power_candidate(#[trigger] ss[k]) by {
                    if k < n {
                        assert(ss[k] == pre[k]);
                    }
                }
            } else {
                assert forall|k: int| 0 <= k < ss.len() implies !gpu_power_candidate(#[trigger] ss[k]) by {
                    if k < n {
                        assert(ss[k] == pre[k]);
                    }
                }
            }
        }
        if !card_power_candidate(s) {
            if exists|i: int|
                0 <= i < pre.len() && card_power_candidate(#[trigger] pre[i]) && power_pass(st, pre).pkg_sensor
                    == pre[i].stype && power_pass(st, pre).pkg_item == (if pre[i].items.contains("input"@) {
                    "input"@
                } else {
                    "average"@
                }) && forall|k: int| i < k < pre.len() ==> !card_power_candidate(#[trigger] pre[k]) {
                let i = choose|i: int|
                    0 <= i < pre.len() && card_power_candidate(#[trigger] pre[i]) && power_pass(st, pre).pkg_sensor
                        == pre[i].stype && power_pass(st, pre).pkg_item == (if pre[i].items.contains("input"@) {
                        "input"@
                    } else {
                        "average"@
                    }) && forall|k: int| i < k < pre.len() ==> !card_power_candidate(#[trigger] pre[k]);
                assert(ss[i] == pre[i]);
                assert forall|k: int| i < k < ss.len() implies !card_power_candidate(#[trigger] ss[k]) by {
                    if k < n {
                        assert(ss[k] == pre[k]);
                    }
                }
            } else {
                assert forall|k: int| 0 <= k < ss.len() implies !card_power_candidate(#[trigger] ss[k]) by {
                    if k < n {
                        assert(ss[k] == pre[k]);
                    }
                }
            }
        }
    }
}

/// In the energy pass the GPU's sensor is the last of the sensors
/// considered that can give the GPU's energy, read from `input`; the
/// card's is the last that can give the card's energy. Where no sensor
/// can, the state it started from stays.
pub proof fn lemma_energy_pass_picks_last(st: SensorSetModel, ss: Seq<SensorModel>)
    ensures
        ({
            let r = energy_pass(st, ss);
            &&& (exists|i: int|
                0 <= i < ss.len() && gpu_energy_candidate(#[trigger] ss[i]) && r.gpu_sensor == ss[i].stype
                    && r.gpu_item == "input"@
                    && forall|k: int| i < k < ss.len() ==> !gpu_energy_candidate(#[trigger] ss[k]))
                || ((forall|k: int| 0 <= k < ss.len() ==> !gpu_energy_candidate(#[trigger] ss[k]))
                && r.gpu_sensor == st.gpu_sensor && r.gpu_item == st.gpu_item)
            &&& (exists|i: int|
                0 <= i < ss.len() && card_energy_candidate(#[trigger] ss[i]) && r.pkg_sensor == ss[i].stype
                    && r.pkg_item == "input"@
                    && forall|k: int| i < k < ss.len() ==> !card_energy_candidate(#[trigger] ss[k]))
                || ((forall|k: int| 0 <= k < ss.len() ==> !card_energy_candidate(#[trigger] ss[k]))
                && r.pkg_sensor == st.pkg_sensor && r.pkg_item == st.pkg_item)
        }),
    decreases ss.len(),
{
    reveal_strlit("pkg");
    reveal_strlit("card");
    if ss.len() > 0 {
        let pre = ss.drop_last();
        lemma_energy_pass_picks_last(st, pre);
        let s = ss.last();
        let n = ss.len() - 1;
        assert(ss[n] == s);
        assert forall|k: int| 0 <= k < pre.len() implies #[trigger] pre[k] == ss[k] by {}
        let r = energy_pass(st, ss);
        assert(r == energy_step(energy_pass(st, pre), s));
        if gpu_energy_candidate(s) {
            assert(is_gpu_label(s.label));
            assert(r.gpu_sensor == ss[n].stype);
            assert(r.gpu_item == "input"@);
        } else {
            assert(r.gpu_sensor == energy_pass(st, pre).gpu_sensor);
            assert(r.gpu_item == energy_pass(st, pre).gpu_item);
        }
        if card_energy_candidate(s) {
            assert(("card"@).len() == 4 && ("pkg"@).len() == 3);
            assert(!is_gpu_label(s.label));
            assert(r.pkg_sensor == ss[n].stype);
        } else {
            assert(r.pkg_sensor == energy_pass(st, pre).pkg_sensor);
            assert(r.pkg_item == energy_pass(st, pre).pkg_item);
        }
        if !gpu_energy_candidate(s) {
            if exists|i: int|
                0 <= i < pre.len() && gpu_energy_candidate(#[trigger] pre[i]) && energy_pass(st, pre).gpu_sensor
                    == pre[i].stype && energy_pass(st, pre).gpu_item == "input"@ && forall|k: int| i < k < pre.len() ==> !gpu_energy_candidate(#[trigger] pre[k]) {
                let i = choose|i: int|
                    0 <= i < pre.len() && gpu_energy_candidate(#[trigger] pre[i]) && energy_pass(st, pre).gpu_sensor
                        == pre[i].stype && energy_pass(st, pre).gpu_item == "input"@ && forall|k: int| i < k < pre.len() ==> !gpu_energy_candidate(#[trigger] pre[k]);
                assert(ss[i] == pre[i]);
                assert forall|k: int| i < k < ss.len() implies !gpu_energy_candidate(#[trigger] ss[k]) by {
                    if k < n {
                        assert(ss[k] == pre[k]);
                    }
                }
            } else {
                assert forall|k: int| 0 <= k < ss.len() implies !gpu_energy_candidate(#[trigger] ss[k]) by {
                    if k < n {
                        assert(ss[k] == pre[k]);
                    }
                }
            }
        }
        if !card_energy_candidate(s) {
            if exists|i: int|
                0 <= i < pre.len() && card_energy_candidate(#[trigger] pre[i]) && energy_pass(st, pre).pkg_sensor
                    == pre[i].stype && energy_pass(st, pre).pkg_item == "input"@ && forall|k: int| i < k < pre.len() ==> !card_energy_candidate(#[trigger] pre[k]) {
                let i = choose|i: int|
                    0 <= i < pre.len() && card_energy_candidate(#[trigger] pre[i]) && energy_pass(st, pre).pkg_sensor
                        == pre[i].stype && energy_pass(st, pre).pkg_item == "input"@ && forall|k: int| i < k < pre.len() ==> !card_energy_candidate(#[trigger] pre[k]);
                assert(ss[i] == pre[i]);
                assert forall|k: int| i < k < ss.len() implies !card_energy_candidate(#[trigger] ss[k]) by {
                    if k < n {
                        assert(ss[k] == pre[k]);
                    }
                }
            } else {
                assert forall|k: int| 0 <= k < ss.len() implies !card_energy_candidate(#[trigger] ss[k]) by {
                    if k < n {
                        assert(ss[k] == pre[k]);
                    }
                }
            }
        }
    }
}

pub open spec fn has_sensor(st: SensorSetModel) -> bool {
    st.gpu_sensor.len() > 0 || st.pkg_sensor.len() > 0
}

pub open spec fn sensors_of(m: Seq<SensorModel>, prefix: Seq<char>) -> Seq<SensorModel> {
    m.filter(|s: SensorModel| is_prefix(prefix, s.stype))
}

/// How the power of a device with the hwmon sensors `m` is read: from its
/// `power*` sensors when one fits, else from its `energy*` sensors when one
/// fits, else not at all.
pub open spec fn spec_find_power_method(m: Seq<SensorModel>) -> Option<(PowerMethod, SensorSetModel)> {
    let p = power_pass(empty_sensor_set(), sensors_of(m, "power"@));
    if has_sensor(p) {
        Some((PowerMethod::Power, p))
    } else {
        let e = energy_pass(p, sensors_of(m, "energy"@));
        if has_sensor(e) {
            Some((PowerMethod::Energy, e))
        } else {
            None
        }
    }
}

/// How the power is read, by which sensors can give it: from the `power*`
/// sensors whenever one of them can give the GPU's or the card's power;
/// else from the `energy*` sensors whenever one of them can give the GPU's
/// or the card's energy; else not at all.
pub proof fn lemma_power_method_choice(m: Seq<SensorModel>)
    ensures
        ({
            let ps = sensors_of(m, "power"@);
            let es = sensors_of(m, "energy"@);
            let some_power = exists|i: int|
                0 <= i < ps.len() && (gpu_power_candidate(#[trigger] ps[i]) || card_power_candidate(ps[i]));
            let some_energy = exists|i: int|
                0 <= i < es.len() && (gpu_energy_candidate(#[trigger] es[i]) || card_energy_candidate(es[i]));
            &&& some_power ==> (spec_find_power_method(m) matches Some((pm, _)) && pm == PowerMethod::Power)
            &&& !some_power && some_energy ==> (spec_find_power_method(m) matches Some((pm, _)) && pm
                == PowerMethod::Energy)
            &&& !some_power && !some_energy ==> spec_find_power_method(m) is None
        }),
{
    reveal_strlit("power");
    reveal_strlit("energy");
    let ps = sensors_of(m, "power"@);
    let es = sensors_of(m, "energy"@);
    let e0 = empty_sensor_set();
    lemma_power_pass_picks_last(e0, ps);
    let p = power_pass(e0, ps);
    lemma_energy_pass_picks_last(p, es);
    assert forall|i: int| 0 <= i < ps.len() implies (#[trigger] ps[i]).stype.len() >= 5 by {
        m.lemma_filter_pred(|s: SensorModel| is_prefix("power"@, s.stype), i);
    }
    assert forall|i: int| 0 <= i < es.len() implies (#[trigger] es[i]).stype.len() >= 6 by {
        m.lemma_filter_pred(|s: SensorModel| is_prefix("energy"@, s.stype), i);
    }
}

/// The sensor set as the exec state `gs, gi, ps, pi` holds it.
spec fn set_of(gs: String, ps: String, gi: String, pi: String) -> SensorSetModel {
    SensorSetModel { gpu_sensor: gs@, pkg_sensor: ps@, gpu_item: gi@, pkg_item: pi@ }
}

/// Runs the power or energy pass (`energy`) over the sensors `lst`, from
/// the state given.
fn run_pass(
    lst: &Vec<&Sensor>,
    energy: bool,
    gs: &mut String,
    ps: &mut String,
    gi: &mut String,
    pi: &mut String,
)
    ensures
        ({
            let m = lst@.map_values(|s: &Sensor| s@);
            let st0 = set_of(*old(gs), *old(ps), *old(gi), *old(pi));
            set_of(*final(gs), *final(ps), *final(gi), *final(pi)) == if energy {
                energy_pass(st0, m)
            } else {
                power_pass(st0, m)
            }
        }),
{
    let ghost m = lst@.map_values(|s: &Sensor| s@);
    let ghost st0 = set_of(*gs, *ps, *gi, *pi);
    let mut k: usize = 0;
    while k < lst.len()
        invariant
            k <= lst@.len(),
            m == lst@.map_values(|s: &Sensor| s@),
            set_of(*gs, *ps, *gi, *pi) == if energy {
                energy_pass(st0, m.take(k as int))
            } else {
                power_pass(st0, m.take(k as int))
            },
        decreases lst@.len() - k,
    {
        let s = lst[k];
        let has_input = s.has_item("input");
        let has_average = s.has_item("average");
        let gpu_label = str_eq(s.label.as_str(), "pkg") || s.label.as_str().unicode_len() == 0;
        let card_label = str_eq(s.label.as_str(), "card");
        let usable = if energy {
            has_input
        } else {
            has_input || has_average
        };
        if usable {
            let item = if energy || has_input {
                String::from_str("input")
            } else {
                String::from_str("average")
            };
            if gpu_label {
                *gs = s.stype.clone();
                *gi = item;
            } else if card_label {
                *ps = s.stype.clone();
                *pi = item;
            }
        }
        proof {
            assert(m.take(k + 1).drop_last() =~= m.take(k as int));
            assert(m.take(k + 1).last() == s@);
        }
        k = k + 1;
    }
    assert(m.take(k as int) =~= m);
}

/// Finds how the power of a discrete GPU is read from its hwmon sensors.
pub fn find_power_method(hwmon: &Hwmon) -> (r: Option<(PowerMethod, SensorSet)>)
    ensures
        match r {
            None => spec_find_power_method(hwmon.model()) is None,
            Some((pm, ss)) => spec_find_power_method(hwmon.model()) == Some((pm, ss@)),
        },
{
    let mut gs = String::new();
    let mut ps = String::new();
    let mut gi = String::new();
    let mut pi = String::new();
    assert(set_of(gs, ps, gi, pi) =~= empty_sensor_set());
    let plst = hwmon.sensors("power");
    run_pass(&plst, false, &mut gs, &mut ps, &mut gi, &mut pi);
    if gs.as_str().unicode_len() > 0 || ps.as_str().unicode_len() > 0 {
        return Some(
            (
                PowerMethod::Power,
                SensorSet { gpu_sensor: gs, pkg_sensor: ps, gpu_item: gi, pkg_item: pi },
            ),
        );
    }
    let elst = hwmon.sensors("energy");
    run_pass(&elst, true, &mut gs, &mut ps, &mut gi, &mut pi);
    if gs.as_str().unicode_len() > 0 || ps.as_str().unicode_len() > 0 {
        return Some(
            (
                PowerMethod::Energy,
                SensorSet { gpu_sensor: gs, pkg_sensor: ps, gpu_item: gi, pkg_item: pi },
            ),
        );
    }
    None
}


/// A discrete GPU's power reading: the method and sensors found, and the
/// last energy counter values and their deltas.
#[derive(Debug)]
pub struct DGpuPowerIntel {
    pub method: PowerMethod,
    pub pwr_sensors: SensorSet,
    pub last_gpu_val: u64,
    pub last_pkg_val: u64,
    pub delta_gpu_val: u64,
    pub delta_pkg_val: u64,
    pub nr_updates: u64,
}

impl DGpuPowerIntel {
    pub fn name(&self) -> (r: &'static str)
        ensures
            r@ == "dGPU:hwmon"@,
    {
        "dGPU:hwmon"
    }

    /// The power reading of a discrete GPU with the hwmon sensors of
    /// `hwmon`, with no energy read yet; `None` when no sensor fits.
    pub fn from(hwmon: &Hwmon) -> (r: Option<DGpuPowerIntel>)
        ensures
            match r {
                None => spec_find_power_method(hwmon.model()) is None,
                Some(p) => {
                    &&& spec_find_power_method(hwmon.model()) == Some((p.method, p.pwr_sensors@))
                    &&& p.last_gpu_val == 0 && p.last_pkg_val == 0
                    &&& p.delta_gpu_val == 0 && p.delta_pkg_val == 0
                    &&& p.nr_updates == 0
                },
            },
    {
        match find_power_method(hwmon) {
            None => None,
            Some((method, pwr_sensors)) => Some(
                DGpuPowerIntel {
                    method,
                    pwr_sensors,
                    last_gpu_val: 0,
                    last_pkg_val: 0,
                    delta_gpu_val: 0,
                    delta_pkg_val: 0,
                    nr_updates: 0,
                },
            ),
        }
    }

    /// Takes the energy counters read now, `gpu_val` and `pkg_val` (0 for
    /// one not read): from the second read on, a counter read as non-zero
    /// gives a new delta since the last read, the other keeps its delta.
    /// Returns the GPU and card deltas. A counter that went back is an error;
    /// the values read become the last seen either way.
    pub fn energy_deltas(&mut self, gpu_val: u64, pkg_val: u64) -> (r: Result<(u64, u64), SysfsError>)
        ensures
            final(self).method == old(self).method,
            final(self).pwr_sensors == old(self).pwr_sensors,
            final(self).last_gpu_val == gpu_val,
            final(self).last_pkg_val == pkg_val,
            final(self).nr_updates == if old(self).nr_updates < u64::MAX {
                (old(self).nr_updates + 1) as u64
            } else {
                u64::MAX
            },
            ({
                let counting = final(self).nr_updates >= 2;
                let gpu_moves = counting && gpu_val > 0;
                let pkg_moves = counting && pkg_val > 0;
                if (gpu_moves && gpu_val < old(self).last_gpu_val) || (pkg_moves && pkg_val < old(
                    self,
                ).last_pkg_val) {
                    &&& r == Err::<(u64, u64), SysfsError>(SysfsError::BadCounter)
                    &&& final(self).delta_gpu_val == old(self).delta_gpu_val
                    &&& final(self).delta_pkg_val == old(self).delta_pkg_val
                } else {
                    &&& final(self).delta_gpu_val == if gpu_moves {
                        (gpu_val - old(self).last_gpu_val) as u64
                    } else {
                        old(self).delta_gpu_val
                    }
                    &&& final(self).delta_pkg_val == if pkg_moves {
                        (pkg_val - old(self).last_pkg_val) as u64
                    } else {
                        old(self).delta_pkg_val
                    }
                    &&& r == Ok::<(u64, u64), SysfsError>(
                        (final(self).delta_gpu_val, final(self).delta_pkg_val),
                    )
                }
            }),
    {
        self.nr_updates = self.nr_updates.saturating_add(1);
        let counting = self.nr_updates >= 2;
        let gpu_moves = counting && gpu_val > 0;
        let pkg_moves = counting && pkg_val > 0;
        let bad = (gpu_moves && gpu_val < self.last_gpu_val) || (pkg_moves && pkg_val
            < self.last_pkg_val);
        if !bad {
            if gpu_moves {
                self.delta_gpu_val = gpu_val - self.last_gpu_val;
            }
            if pkg_moves {
                self.delta_pkg_val = pkg_val - self.last_pkg_val;
            }
        }
        self.last_gpu_val = gpu_val;
        self.last_pkg_val = pkg_val;
        if bad {
            Err(SysfsError::BadCounter)
        } else {
            Ok((self.delta_gpu_val, self.delta_pkg_val))
        }
    }
}

/// A running sum of an MSR counter, of which the low 32 bits count.
#[derive(Debug, Clone, Copy, PartialEq, Eq, Structural)]
pub struct MsrSum {
    pub sum: u64,
    pub last: u64,
}

/// The low 32 bits of a register's value.
pub open spec fn low32(val: u64) -> u64 {
    (val % 0x1_0000_0000) as u64
}

/// The sum after a register read `val`: the low 32 bits of the value
/// become the last seen, and their difference to the last seen, taken
/// modulo 2^64, is added modulo 2^64.
pub open spec fn spec_add_reading(s: MsrSum, val: u64) -> MsrSum {
    MsrSum {
        sum: vstd::wrapping::u64_specs::wrapping_add(
            s.sum,
            vstd::wrapping::u64_specs::wrapping_sub(low32(val), s.last),
        ),
        last: low32(val),
    }
}

impl MsrSum {
    /// Adds the register value read now, `val`; returns the new sum.
    pub fn add_reading(&mut self, val: u64) -> (r: u64)
        ensures
            *final(self) == spec_add_reading(*old(self), val),
            r == final(self).sum,
    {
        let cur = val & 0xffffffff;
        assert(val & 0xffffffff == val % 0x1_0000_0000) by (bit_vector);
        let delta = cur.wrapping_sub(self.last);
        self.last = cur;
        self.sum = self.sum.wrapping_add(delta);
        self.sum
    }
}

/// While the 32-bit counter does not wrap and the sum stays within 64 bits,
/// the sum grows by exactly what the counter moved.
pub proof fn lemma_msr_sum_grows(s: MsrSum, val: u64)
    requires
        s.last <= low32(val),
        s.sum + (low32(val) - s.last) <= u64::MAX,
    ensures
        spec_add_reading(s, val).sum == s.sum + (low32(val) - s.last),
        spec_add_reading(s, val).last == low32(val),
{
}

/// The running sums of a CPU's MSR counters, by register offset.
#[derive(Debug)]
pub struct Msr {
    pub sums: Vec<(i64, MsrSum)>,
}

/// The sum kept for register `offset` in `sums`, if any.
pub open spec fn msr_sum_of(sums: Seq<(i64, MsrSum)>, offset: i64) -> Option<MsrSum>
    decreases sums.len(),
{
    if sums.len() == 0 {
        None
    } else if sums.last().0 == offset {
        Some(sums.last().1)
    } else {
        msr_sum_of(sums.drop_last(), offset)
    }
}

pub open spec fn msr_offsets(sums: Seq<(i64, MsrSum)>) -> Set<i64> {
    sums.map_values(|e: (i64, MsrSum)| e.0).to_set()
}

proof fn lemma_msr_sum_of_update(sums: Seq<(i64, MsrSum)>, k: int, e: (i64, MsrSum), offset: i64)
    requires
        0 <= k < sums.len(),
        sums[k].0 == e.0,
        forall|i: int, j: int| 0 <= i < j < sums.len() ==> (#[trigger] sums[i]).0 != (#[trigger] sums[j]).0,
    ensures
        msr_sum_of(sums.update(k, e), offset) == if offset == e.0 {
            Some(e.1)
        } else {
            msr_sum_of(sums, offset)
        },
    decreases sums.len(),
{
    let u = sums.update(k, e);
    if k == sums.len() - 1 {
        assert(u.drop_last() =~= sums.drop_last());
    } else {
        assert(u.drop_last() =~= sums.drop_last().update(k, e));
        assert(u.last() == sums.last());
        lemma_msr_sum_of_update(sums.drop_last(), k, e, offset);
        if offset == e.0 {
            assert(sums.last().0 != sums[k].0);
        }
    }
}

proof fn lemma_msr_sum_of_index(sums: Seq<(i64, MsrSum)>, k: int)
    requires
        0 <= k < sums.len(),
        forall|i: int, j: int| 0 <= i < j < sums.len() ==> (#[trigger] sums[i]).0 != (#[trigger] sums[j]).0,
    ensures
        msr_sum_of(sums, sums[k].0) == Some(sums[k].1),
    decreases sums.len(),
{
    if k < sums.len() - 1 {
        assert(sums.drop_last()[k] == sums[k]);
        lemma_msr_sum_of_index(sums.drop_last(), k);
    }
}

proof fn lemma_msr_sum_of_absent(sums: Seq<(i64, MsrSum)>, offset: i64)
    requires
        forall|i: int| 0 <= i < sums.len() ==> (#[trigger] sums[i]).0 != offset,
    ensures
        msr_sum_of(sums, offset) is None,
    decreases sums.len(),
{
    if sums.len() > 0 {
        lemma_msr_sum_of_absent(sums.drop_last(), offset);
    }
}

impl Msr {
    /// Each register has one sum.
    pub open spec fn wf(&self) -> bool {
        forall|i: int, j: int|
            0 <= i < j < self.sums@.len() ==> (#[trigger] self.sums@[i]).0 != (#[trigger] self.sums@[j]).0
    }

    pub fn new() -> (r: Msr)
        ensures
            r.wf(),
            r.sums@.len() == 0,
    {
        Msr { sums: Vec::new() }
    }

    /// Adds the value `val` read now from register `offset` to its running
    /// sum (started at 0 on its first read) and returns the sum.
    pub fn read_sum(&mut self, offset: i64, val: u64) -> (r: u64)
        requires
            old(self).wf(),
        ensures
            final(self).wf(),
            ({
                let before = match msr_sum_of(old(self).sums@, offset) {
                    Some(s) => s,
                    None => MsrSum { sum: 0, last: 0 },
                };
                &&& msr_sum_of(final(self).sums@, offset) == Some(spec_add_reading(before, val))
                &&& r == spec_add_reading(before, val).sum
            }),
            forall|o: i64| o != offset ==> msr_sum_of(final(self).sums@, o) == msr_sum_of(old(self).sums@, o),
            msr_offsets(final(self).sums@) == msr_offsets(old(self).sums@).insert(offset),
    {
        let ghost a = self.sums@;
        let mut k: usize = 0;
        while k < self.sums.len() && self.sums[k].0 != offset
            invariant
                k <= self.sums@.len(),
                self.sums@ == a,
                forall|i: int| 0 <= i < k ==> (#[trigger] a[i]).0 != offset,
            decreases self.sums@.len() - k,
        {
            k = k + 1;
        }
        if k == self.sums.len() {
            proof {
                lemma_msr_sum_of_absent(a, offset);
            }
            self.sums.push((offset, MsrSum { sum: 0, last: 0 }));
            proof {
                let b = self.sums@;
                assert(b.drop_last() =~= a);
                assert forall|o: i64| o != offset implies msr_sum_of(b, o) == msr_sum_of(a, o) by {}
                assert(b.map_values(|e: (i64, MsrSum)| e.0) =~= a.map_values(|e: (i64, MsrSum)| e.0).push(offset));
                a.map_values(|e: (i64, MsrSum)| e.0).lemma_push_to_set_commute(offset);
            }
        } else {
            proof {
                lemma_msr_sum_of_index(a, k as int);
                assert(a.map_values(|e: (i64, MsrSum)| e.0)[k as int] == offset);
                assert(msr_offsets(a).insert(offset) =~= msr_offsets(a));
            }
        }
        let ghost b = self.sums@;
        let mut e = self.sums[k];
        let r = e.1.add_reading(val);
        self.sums.set(k, e);
        proof {
            lemma_msr_sum_of_index(b, k as int);
            lemma_msr_sum_of_update(b, k as int, e, offset);
            assert forall|o: i64| o != offset implies msr_sum_of(self.sums@, o) == msr_sum_of(b, o) by {
                lemma_msr_sum_of_update(b, k as int, e, o);
            }
            assert(self.sums@.map_values(|x: (i64, MsrSum)| x.0) =~= b.map_values(|x: (i64, MsrSum)| x.0));
        }
        r
    }
}

/// The temperature (°C) at which an Intel CPU package throttles, when the
/// register could not be read or reads 0.
pub const TJMAX_DEFAULT: u32 = 100;

/// Bits 16..23 of a register's value.
pub open spec fn bits_16_23(val: u64) -> u32 {
    ((val / 0x10000) % 0x100) as u32
}

/// Bits 16..22 of a register's value: the digital readout of a thermal
/// status register.
pub open spec fn bits_16_22(val: u64) -> u32 {
    ((val / 0x10000) % 0x80) as u32
}

/// The throttling temperature of an integrated GPU's package, and the
/// package temperature read from its thermal status register.
#[derive(Debug)]
pub struct IGpuTempIntel {
    pub tjmax: u32,
}

impl IGpuTempIntel {
    /// The throttling temperature from the value of the temperature target
    /// register (`None` when it could not be read): its bits 16..23, or
    /// [`TJMAX_DEFAULT`] when they are 0 or the register was not read.
    pub fn read_tjmax(reading: Option<u64>) -> (r: u32)
        ensures
            r == match reading {
                Some(v) => if bits_16_23(v) == 0 {
                    TJMAX_DEFAULT
                } else {
                    bits_16_23(v)
                },
                None => TJMAX_DEFAULT,
            },
    {
        match reading {
            Some(val) => {
                let tcc = ((val >> 16) & 0xFF) as u32;
                assert(((val >> 16) & 0xFF) == (val / 0x10000) % 0x100) by (bit_vector);
                if tcc == 0 {
                    TJMAX_DEFAULT
                } else {
                    tcc
                }
            },
            None => TJMAX_DEFAULT,
        }
    }

    pub fn new(tjmax_reading: Option<u64>) -> (r: IGpuTempIntel)
        ensures
            r.tjmax == match tjmax_reading {
                Some(v) => if bits_16_23(v) == 0 {
                    TJMAX_DEFAULT
                } else {
                    bits_16_23(v)
                },
                None => TJMAX_DEFAULT,
            },
    {
        IGpuTempIntel { tjmax: IGpuTempIntel::read_tjmax(tjmax_reading) }
    }

    /// The package temperature (°C) from the value `val` of the package
    /// thermal status register: the throttling temperature less the
    /// distance to it, the digital readout in bits 16..22, and 0 when that
    /// distance is larger.
    pub fn pkg_temp_c(&self, val: u64) -> (r: u32)
        ensures
            r == if bits_16_22(val) <= self.tjmax {
                (self.tjmax - bits_16_22(val)) as u32
            } else {
                0
            },
    {
        let dts = ((val >> 16) & 0x7F) as u32;
        assert(((val >> 16) & 0x7F) == (val / 0x10000) % 0x80) by (bit_vector);
        self.tjmax.saturating_sub(dts)
    }
}


/// An integrated GPU's power reading: whether its energy counters come from
/// perf events (else from MSRs), and their last values and deltas.
#[derive(Debug)]
pub struct IGpuPowerIntel {
    pub from_perf: bool,
    pub last_gpu_val: u64,
    pub last_pkg_val: u64,
    pub delta_gpu_val: u64,
    pub delta_pkg_val: u64,
    pub nr_updates: u64,
}

impl IGpuPowerIntel {
    /// A reading with nothing read yet.
    pub fn new(from_perf: bool) -> (r: IGpuPowerIntel)
        ensures
            r.from_perf == from_perf,
            r.last_gpu_val == 0 && r.last_pkg_val == 0,
            r.delta_gpu_val == 0 && r.delta_pkg_val == 0,
            r.nr_updates == 0,
    {
        IGpuPowerIntel {
            from_perf,
            last_gpu_val: 0,
            last_pkg_val: 0,
            delta_gpu_val: 0,
            delta_pkg_val: 0,
            nr_updates: 0,
        }
    }

    pub fn name(&self) -> (r: &'static str)
        ensures
            r@ == if self.from_perf {
                "iGPU:perf"@
            } else {
                "iGPU:MSR"@
            },
    {
        if self.from_perf {
            "iGPU:perf"
        } else {
            "iGPU:MSR"
        }
    }

    /// Takes the GPU and package energy counters read now: from the second
    /// read on, both deltas since the last read are taken anew. Returns the
    /// GPU and package deltas. A counter that went back is an error; the
    /// values read become the last seen either way.
    pub fn energy_deltas(&mut self, gpu_val: u64, pkg_val: u64) -> (r: Result<(u64, u64), SysfsError>)
        ensures
            final(self).from_perf == old(self).from_perf,
            final(self).last_gpu_val == gpu_val,
            final(self).last_pkg_val == pkg_val,
            final(self).nr_updates == if old(self).nr_updates < u64::MAX {
                (old(self).nr_updates + 1) as u64
            } else {
                u64::MAX
            },
            ({
                let counting = final(self).nr_updates >= 2;
                if counting && (gpu_val < old(self).last_gpu_val || pkg_val < old(self).last_pkg_val) {
                    &&& r == Err::<(u64, u64), SysfsError>(SysfsError::BadCounter)
                    &&& final(self).delta_gpu_val == old(self).delta_gpu_val
                    &&& final(self).delta_pkg_val == old(self).delta_pkg_val
                } else {
                    &&& final(self).delta_gpu_val == if counting {
                        (gpu_val - old(self).last_gpu_val) as u64
                    } else {
                        old(self).delta_gpu_val
                    }
                    &&& final(self).delta_pkg_val == if counting {
                        (pkg_val - old(self).last_pkg_val) as u64
                    } else {
                        old(self).delta_pkg_val
                    }
                    &&& r == Ok::<(u64, u64), SysfsError>(
                        (final(self).delta_gpu_val, final(self).delta_pkg_val),
                    )
                }
            }),
    {
        self.nr_updates = self.nr_updates.saturating_add(1);
        let counting = self.nr_updates >= 2;
        let bad = counting && (gpu_val < self.last_gpu_val || pkg_val < self.last_pkg_val);
        if counting && !bad {
            self.delta_gpu_val = gpu_val - self.last_gpu_val;
            self.delta_pkg_val = pkg_val - self.last_pkg_val;
        }
        self.last_gpu_val = gpu_val;
        self.last_pkg_val = pkg_val;
        if bad {
            Err(SysfsError::BadCounter)
        } else {
            Ok((self.delta_gpu_val, self.delta_pkg_val))
        }
    }
}

/// The energy unit's exponent in the RAPL power unit register: its bits
/// 8..12 (energy counts in units of 1/2^n joules).
pub fn rapl_energy_unit_shift(pu: u64) -> (r: u32)
    ensures
        r == (pu / 0x100) % 0x20,
        r < 32,
{
    assert(((pu >> 8) & 0x1F) == (pu / 0x100) % 0x20) by (bit_vector);
    ((pu >> 8) & 0x1F) as u32
}

} // verus!
