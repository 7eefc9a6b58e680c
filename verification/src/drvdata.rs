//! What the Intel drivers (`xe`, `i915`) make of what the kernel tells them:
//! a device's memory from its memory regions, its type, its engines and
//! their PMU counters, its SR-IOV function, its frequency limits, and the
//! PMU options and event source that apply to it.
use vstd::prelude::*;

use crate::devices::{DrmDeviceFreqLimits, DrmDeviceMemInfo, DrmDeviceType, VirtFn};
use crate::drivers::{spec_colon_to_underscore, spec_sysfs_u64, sysfs_u64, xe_pmu_source_from, SysfsError};
use crate::hwmon::str_eq;
use crate::intel::{spec_opts_from, IntelDriverOpts};
use crate::view::{decimal_string, spec_decimal};
use crate::text::{chars_of, is_prefix, starts_with_lit};

verus! {

/// A memory class: system memory.
pub const MEM_CLASS_SYSTEM: u16 = 0;

/// A memory class: device memory (VRAM).
pub const MEM_CLASS_DEVICE: u16 = 1;

/// One memory region of a device: its class, its size and the bytes used.
#[derive(Debug, Clone, Copy, PartialEq, Eq, Structural)]
pub struct MemRegionUsage {
    pub mem_class: u16,
    pub total: u64,
    pub used: u64,
}

/// The sums of total and used bytes of system memory and of VRAM.
pub struct MemTotals {
    pub smem_total: int,
    pub smem_used: int,
    pub vram_total: int,
    pub vram_used: int,
}

/// The regions' sizes and usage added up by class; regions of any other
/// class are left out.
pub open spec fn mem_totals(rs: Seq<MemRegionUsage>) -> MemTotals
    decreases rs.len(),
{
    if rs.len() == 0 {
        MemTotals { smem_total: 0, smem_used: 0, vram_total: 0, vram_used: 0 }
    } else {
        let t = mem_totals(rs.drop_last());
        let r = rs.last();
        if r.mem_class == MEM_CLASS_SYSTEM {
            MemTotals { smem_total: t.smem_total + r.total, smem_used: t.smem_used + r.used, ..t }
        } else if r.mem_class == MEM_CLASS_DEVICE {
            MemTotals { vram_total: t.vram_total + r.total, vram_used: t.vram_used + r.used, ..t }
        } else {
            t
        }
    }
}

pub open spec fn totals_fit(t: MemTotals) -> bool {
    &&& t.smem_total <= u64::MAX
    &&& t.smem_used <= u64::MAX
    &&& t.vram_total <= u64::MAX
    &&& t.vram_used <= u64::MAX
}

pub open spec fn totals_le(a: MemTotals, b: MemTotals) -> bool {
    &&& 0 <= a.smem_total <= b.smem_total
    &&& 0 <= a.smem_used <= b.smem_used
    &&& 0 <= a.vram_total <= b.vram_total
    &&& 0 <= a.vram_used <= b.vram_used
}

/// The sums only grow as regions are added.
proof fn lemma_mem_totals_prefix(rs: Seq<MemRegionUsage>, k: int)
    requires
        0 <= k <= rs.len(),
    ensures
        totals_le(mem_totals(rs.take(k)), mem_totals(rs)),
    decreases rs.len() - k,
{
    if k < rs.len() {
        lemma_mem_totals_prefix(rs, k + 1);
        assert(rs.take(k + 1).drop_last() =~= rs.take(k));
        lemma_mem_totals_nonneg(rs.take(k));
    } else {
        assert(rs.take(k) =~= rs);
        lemma_mem_totals_nonneg(rs);
    }
}

proof fn lemma_mem_totals_nonneg(rs: Seq<MemRegionUsage>)
    ensures
        totals_le(MemTotals { smem_total: 0, smem_used: 0, vram_total: 0, vram_used: 0 }, mem_totals(rs)),
    decreases rs.len(),
{
    if rs.len() > 0 {
        lemma_mem_totals_nonneg(rs.drop_last());
    }
}

pub open spec fn mem_info_of(t: MemTotals) -> DrmDeviceMemInfo {
    DrmDeviceMemInfo {
        smem_total: t.smem_total as u64,
        smem_used: t.smem_used as u64,
        vram_total: t.vram_total as u64,
        vram_used: t.vram_used as u64,
    }
}

/// A device's memory from its memory regions (as the `xe` driver reports
/// them): the sizes and usage of the system memory regions and of the VRAM
/// regions added up; regions of other classes are skipped. `None` when a
/// sum does not fit in 64 bits.
pub fn xe_mem_info(regs: &Vec<MemRegionUsage>) -> (r: Option<DrmDeviceMemInfo>)
    ensures
        match r {
            Some(mi) => totals_fit(mem_totals(regs@)) && mi == mem_info_of(mem_totals(regs@)),
            None => !totals_fit(mem_totals(regs@)),
        },
{
    let ghost rs = regs@;
    let mut mi = DrmDeviceMemInfo::new();
    let mut k: usize = 0;
    while k < regs.len()
        invariant
            k <= rs.len(),
            rs == regs@,
            mi == mem_info_of(mem_totals(rs.take(k as int))),
            totals_fit(mem_totals(rs.take(k as int))),
        decreases rs.len() - k,
    {
        let r = regs[k];
        proof {
            assert(rs.take(k + 1).drop_last() =~= rs.take(k as int));
            assert(rs.take(k + 1).last() == r);
            lemma_mem_totals_prefix(rs, k + 1);
            lemma_mem_totals_nonneg(rs.take(k as int));
        }
        if r.mem_class == MEM_CLASS_SYSTEM {
            match (mi.smem_total.checked_add(r.total), mi.smem_used.checked_add(r.used)) {
                (Some(t), Some(u)) => {
                    mi.smem_total = t;
                    mi.smem_used = u;
                },
                _ => {
                    return None;
                },
            }
        } else if r.mem_class == MEM_CLASS_DEVICE {
            match (mi.vram_total.checked_add(r.total), mi.vram_used.checked_add(r.used)) {
                (Some(t), Some(u)) => {
                    mi.vram_total = t;
                    mi.vram_used = u;
                },
                _ => {
                    return None;
                },
            }
        }
        k = k + 1;
    }
    assert(rs.take(k as int) =~= rs);
    Some(mi)
}

/// One memory region as the `i915` driver reports it: its class, its
/// probed size and its unallocated bytes.
#[derive(Debug, Clone, Copy, PartialEq, Eq, Structural)]
pub struct I915MemRegion {
    pub memory_class: u16,
    pub probed_size: u64,
    pub unallocated_size: u64,
}

/// A known-class region that reports more unallocated bytes than it has.
pub open spec fn i915_region_bad(r: I915MemRegion) -> bool {
    (r.memory_class == MEM_CLASS_SYSTEM || r.memory_class == MEM_CLASS_DEVICE) && r.unallocated_size
        > r.probed_size
}

/// The region's size and used bytes (its size less its unallocated bytes;
/// 0 for a region that reports more unallocated bytes than it has, which
/// only a region of another class, left out of the sums, may do here).
pub open spec fn i915_usage(r: I915MemRegion) -> MemRegionUsage {
    MemRegionUsage {
        mem_class: r.memory_class,
        total: r.probed_size,
        used: if r.unallocated_size <= r.probed_size {
            (r.probed_size - r.unallocated_size) as u64
        } else {
            0
        },
    }
}

/// A device's memory from its memory regions as the `i915` driver reports
/// them: per class, the probed sizes and the used bytes (probed less
/// unallocated) added up. `None` when a region reports more unallocated
/// bytes than it has, or when a sum does not fit in 64 bits.
pub fn i915_mem_info(regs: &Vec<I915MemRegion>) -> (r: Option<DrmDeviceMemInfo>)
    ensures
        ({
            let us = regs@.map_values(|x: I915MemRegion| i915_usage(x));
            match r {
                Some(mi) => {
                    &&& forall|i: int| 0 <= i < regs@.len() ==> !i915_region_bad(#[trigger] regs@[i])
                    &&& totals_fit(mem_totals(us))
                    &&& mi == mem_info_of(mem_totals(us))
                },
                None => (exists|i: int| 0 <= i < regs@.len() && i915_region_bad(#[trigger] regs@[i]))
                    || !totals_fit(mem_totals(us)),
            }
        }),
{
    let ghost us = regs@.map_values(|x: I915MemRegion| i915_usage(x));
    let mut conv: Vec<MemRegionUsage> = Vec::new();
    let mut k: usize = 0;
    while k < regs.len()
        invariant
            k <= regs@.len(),
            us == regs@.map_values(|x: I915MemRegion| i915_usage(x)),
            conv@ == us.take(k as int),
            forall|i: int| 0 <= i < k ==> !i915_region_bad(#[trigger] regs@[i]),
        decreases regs@.len() - k,
    {
        let x = regs[k];
        let known = x.memory_class == MEM_CLASS_SYSTEM || x.memory_class == MEM_CLASS_DEVICE;
        if known && x.unallocated_size > x.probed_size {
            return None;
        }
        let used = if x.unallocated_size <= x.probed_size {
            x.probed_size - x.unallocated_size
        } else {
            0
        };
        let u = MemRegionUsage { mem_class: x.memory_class, total: x.probed_size, used };
        conv.push(u);
        proof {
            assert(us.take(k + 1) =~= us.take(k as int).push(us[k as int]));
        }
        k = k + 1;
    }
    assert(us.take(k as int) =~= us);
    assert(conv@ == us);
    xe_mem_info(&conv)
}

/// An `i915` device is discrete when it has VRAM.
pub fn i915_dev_type(mi: &DrmDeviceMemInfo) -> (r: DrmDeviceType)
    ensures
        r == if mi.vram_total > 0 {
            DrmDeviceType::Discrete(VirtFn::NoVirt)
        } else {
            DrmDeviceType::Integrated(VirtFn::NoVirt)
        },
{
    if mi.vram_total > 0 {
        DrmDeviceType::Discrete(VirtFn::NoVirt)
    } else {
        DrmDeviceType::Integrated(VirtFn::NoVirt)
    }
}

/// How a device function is virtualized, from its sysfs directory: VFIO
/// when it has a `vfio-dev` directory, a VF when it has a `physfn` link, a
/// PF when it has a `virtfn0` link.
pub fn virt_fn_from(is_vfio: bool, has_physfn: bool, has_virtfn0: bool) -> (r: VirtFn)
    ensures
        r == if is_vfio {
            VirtFn::VFIO
        } else if has_physfn {
            VirtFn::SriovVF
        } else if has_virtfn0 {
            VirtFn::SriovPF
        } else {
            VirtFn::NoVirt
        },
{
    if is_vfio {
        VirtFn::VFIO
    } else if has_physfn {
        VirtFn::SriovVF
    } else if has_virtfn0 {
        VirtFn::SriovPF
    } else {
        VirtFn::NoVirt
    }
}

/// The index of the flags among the `xe` configuration parameters.
pub const XE_QUERY_CONFIG_FLAGS: usize = 1;

/// An `xe` device's type from its virtualization `virt` and its
/// configuration parameters `config` (empty when the kernel returned none):
/// `Unknown` without parameters, else discrete when the flags have the
/// has-VRAM bit (bit 0).
pub fn xe_dev_type(virt: VirtFn, config: &Vec<u64>) -> (r: DrmDeviceType)
    requires
        config@.len() != 1,
    ensures
        r == if config@.len() == 0 {
            DrmDeviceType::Unknown
        } else if config@[1] % 2 == 1 {
            DrmDeviceType::Discrete(virt)
        } else {
            DrmDeviceType::Integrated(virt)
        },
{
    if config.len() == 0 {
        return DrmDeviceType::Unknown;
    }
    let flags = config[XE_QUERY_CONFIG_FLAGS];
    assert((flags & 1 > 0) == (flags % 2 == 1)) by (bit_vector);
    if flags & 1 > 0 {
        DrmDeviceType::Discrete(virt)
    } else {
        DrmDeviceType::Integrated(virt)
    }
}

/// The number of engine classes that engines of classes `cs` need: one more
/// than the largest class, 0 without engines.
pub open spec fn nr_classes(cs: Seq<u16>) -> nat
    decreases cs.len(),
{
    if cs.len() == 0 {
        0
    } else {
        let n = nr_classes(cs.drop_last());
        if cs.last() + 1 > n {
            (cs.last() + 1) as nat
        } else {
            n
        }
    }
}

proof fn lemma_nr_classes_bound(cs: Seq<u16>)
    ensures
        nr_classes(cs) <= 0x10000,
        forall|i: int| 0 <= i < cs.len() ==> (#[trigger] cs[i]) < nr_classes(cs),
    decreases cs.len(),
{
    if cs.len() > 0 {
        lemma_nr_classes_bound(cs.drop_last());
        assert forall|i: int| 0 <= i < cs.len() implies (#[trigger] cs[i]) < nr_classes(cs) by {
            if i < cs.len() - 1 {
                assert(cs.drop_last()[i] == cs[i]);
            }
        }
    }
}

/// The number of engine classes that engines of classes `classes` need.
pub fn nr_engine_classes(classes: &Vec<u16>) -> (r: usize)
    ensures
        r == nr_classes(classes@),
        forall|i: int| 0 <= i < classes@.len() ==> (#[trigger] classes@[i]) < r,
{
    proof {
        lemma_nr_classes_bound(classes@);
    }
    let mut n: usize = 0;
    let mut k: usize = 0;
    while k < classes.len()
        invariant
            k <= classes@.len(),
            n == nr_classes(classes@.take(k as int)),
        decreases classes@.len() - k,
    {
        proof {
            assert(classes@.take(k + 1).drop_last() =~= classes@.take(k as int));
            lemma_nr_classes_bound(classes@.take(k as int));
        }
        let c = classes[k] as usize;
        if c + 1 > n {
            n = c + 1;
        }
        k = k + 1;
    }
    assert(classes@.take(k as int) =~= classes@);
    n
}

/// One engine of an `xe` device: its GT, class and instance.
#[derive(Debug, Clone, Copy, PartialEq, Eq, Structural)]
pub struct XeEngine {
    pub gt_id: u64,
    pub class: u64,
    pub instance: u64,
}

/// The engines of an `xe` device from the (class, instance, GT) triples
/// that the kernel lists, and the number of engine classes they need.
pub fn xe_engines_from(raw: &Vec<(u16, u16, u16)>) -> (r: (usize, Vec<XeEngine>))
    ensures
        r.0 == nr_classes(raw@.map_values(|e: (u16, u16, u16)| e.0)),
        r.1@.len() == raw@.len(),
        forall|i: int|
            0 <= i < raw@.len() ==> #[trigger] r.1@[i] == (XeEngine {
                gt_id: raw@[i].2 as u64,
                class: raw@[i].0 as u64,
                instance: raw@[i].1 as u64,
            }),
{
    let mut classes: Vec<u16> = Vec::new();
    let mut engs: Vec<XeEngine> = Vec::new();
    let mut k: usize = 0;
    while k < raw.len()
        invariant
            k <= raw@.len(),
            classes@ == raw@.map_values(|e: (u16, u16, u16)| e.0).take(k as int),
            engs@.len() == k,
            forall|i: int|
                0 <= i < k ==> #[trigger] engs@[i] == (XeEngine {
                    gt_id: raw@[i].2 as u64,
                    class: raw@[i].0 as u64,
                    instance: raw@[i].1 as u64,
                }),
        decreases raw@.len() - k,
    {
        let (c, inst, gt) = raw[k];
        classes.push(c);
        engs.push(XeEngine { gt_id: gt as u64, class: c as u64, instance: inst as u64 });
        proof {
            assert(raw@.map_values(|e: (u16, u16, u16)| e.0).take(k + 1) =~= raw@.map_values(
                |e: (u16, u16, u16)| e.0,
            ).take(k as int).push(c));
        }
        k = k + 1;
    }
    assert(raw@.map_values(|e: (u16, u16, u16)| e.0).take(k as int) =~= raw@.map_values(
        |e: (u16, u16, u16)| e.0,
    ));
    let n = nr_engine_classes(&classes);
    (n, engs)
}

/// Which statistics a device's options ask to read through the PMU:
/// (engines, frequencies).
pub fn parse_pmu_opts(pci_dev: &str, opts_vec: &Vec<&str>) -> (r: (bool, bool))
    ensures
        r.0 == (spec_opts_from(pci_dev@, opts_vec@.map_values(|s: &str| s@)) & 1 != 0),
        r.1 == (spec_opts_from(pci_dev@, opts_vec@.map_values(|s: &str| s@)) & 2 != 0),
{
    let o = IntelDriverOpts::from(pci_dev, Some(opts_vec));
    (o.has_engs_pmu(), o.has_freqs_pmu())
}

/// Why a device's SR-IOV function could not be found.
#[derive(Debug, Clone, Copy, PartialEq, Eq, Structural)]
pub enum SriovError {
    /// The device is a VF, but not among its PF's virtual functions.
    NotAVirtFn,
}

/// A device's SR-IOV function number: 0 for a device without a `physfn`
/// link (a PF), else one more than the position of the device `pci_dev`
/// among the devices that its PF's `virtfn<n>` links name, in order.
pub fn sriov_fn_from(pci_dev: &str, has_physfn: bool, virtfns: &Vec<String>) -> (r: Result<u64, SriovError>)
    ensures
        !has_physfn ==> r == Ok::<u64, SriovError>(0),
        has_physfn ==> match r {
            Ok(n) => 1 <= n <= virtfns@.len() && virtfns@[n - 1]@ == pci_dev@ && forall|i: int|
                0 <= i < n - 1 ==> (#[trigger] virtfns@[i])@ != pci_dev@,
            Err(e) => e == SriovError::NotAVirtFn && forall|i: int|
                0 <= i < virtfns@.len() ==> (#[trigger] virtfns@[i])@ != pci_dev@,
        },
{
    if !has_physfn {
        return Ok(0);
    }
    let mut k: usize = 0;
    while k < virtfns.len()
        invariant
            has_physfn,
            k <= virtfns@.len(),
            forall|i: int| 0 <= i < k ==> (#[trigger] virtfns@[i])@ != pci_dev@,
        decreases virtfns@.len() - k,
    {
        if str_eq(virtfns[k].as_str(), pci_dev) {
            return Ok(k as u64 + 1);
        }
        k = k + 1;
    }
    Err(SriovError::NotAVirtFn)
}

/// The texts of one GT's frequency limits: minimum, efficient, maximum.
pub struct FreqLimitTexts {
    pub minimum: String,
    pub efficient: String,
    pub maximum: String,
}

pub open spec fn gt_name(nr: nat) -> Seq<char> {
    "gt"@ + spec_decimal(nr)
}

/// The frequency limits of the GTs from the texts read from their
/// directories, GT `n` named `gt<n>`; the first text that is not a number
/// makes an error.
pub open spec fn spec_freq_limits_ok(ts: Seq<FreqLimitTexts>) -> bool {
    forall|i: int|
        0 <= i < ts.len() ==> spec_sysfs_u64((#[trigger] ts[i]).minimum@) is Ok && spec_sysfs_u64(
            ts[i].efficient@,
        ) is Ok && spec_sysfs_u64(ts[i].maximum@) is Ok
}

pub open spec fn limits_match(fl: DrmDeviceFreqLimits, t: FreqLimitTexts, nr: nat) -> bool {
    &&& fl.name@ == gt_name(nr)
    &&& spec_sysfs_u64(t.minimum@) == Ok::<u64, SysfsError>(fl.minimum)
    &&& spec_sysfs_u64(t.efficient@) == Ok::<u64, SysfsError>(fl.efficient)
    &&& spec_sysfs_u64(t.maximum@) == Ok::<u64, SysfsError>(fl.maximum)
}

/// The frequency limits of a device's GTs from the texts of their limits
/// files, GT `n` named `gt<n>`.
pub fn freq_limits_from(ts: &Vec<FreqLimitTexts>) -> (r: Result<Vec<DrmDeviceFreqLimits>, SysfsError>)
    ensures
        match r {
            Ok(fls) => spec_freq_limits_ok(ts@) && fls@.len() == ts@.len() && forall|i: int|
                0 <= i < ts@.len() ==> limits_match(#[trigger] fls@[i], ts@[i], i as nat),
            Err(e) => e == SysfsError::InvalidNumber && !spec_freq_limits_ok(ts@),
        },
{
    let mut fls: Vec<DrmDeviceFreqLimits> = Vec::new();
    let mut k: usize = 0;
    while k < ts.len()
        invariant
            k <= ts@.len(),
            fls@.len() == k,
            forall|i: int| 0 <= i < k ==> limits_match(#[trigger] fls@[i], ts@[i], i as nat),
            forall|i: int|
                0 <= i < k ==> spec_sysfs_u64((#[trigger] ts@[i]).minimum@) is Ok && spec_sysfs_u64(
                    ts@[i].efficient@,
                ) is Ok && spec_sysfs_u64(ts@[i].maximum@) is Ok,
        decreases ts@.len() - k,
    {
        let t = &ts[k];
        let mn = sysfs_u64(t.minimum.as_str());
        let ef = sysfs_u64(t.efficient.as_str());
        let mx = sysfs_u64(t.maximum.as_str());
        match (mn, ef, mx) {
            (Ok(a), Ok(b), Ok(c)) => {
                let mut name = String::from_str("gt");
                proof {
                    reveal_strlit("gt");
                }
                let num = decimal_string(k as u64);
                name.append(num.as_str());
                fls.push(DrmDeviceFreqLimits { name, minimum: a, efficient: b, maximum: c });
            },
            _ => {
                proof {
                    assert(!(spec_sysfs_u64(ts@[k as int].minimum@) is Ok && spec_sysfs_u64(
                        ts@[k as int].efficient@,
                    ) is Ok && spec_sysfs_u64(ts@[k as int].maximum@) is Ok));
                }
                return Err(SysfsError::InvalidNumber);
            },
        }
        k = k + 1;
    }
    Ok(fls)
}

/// The name of an `i915` device's PMU event source: `i915`, followed for a
/// discrete device by `_` and its PCI slot, with `:` replaced by `_`.
pub fn i915_pmu_source(pci_dev: &str, dtype: &DrmDeviceType) -> (r: String)
    ensures
        r@ == if *dtype is Discrete {
            "i915_"@ + spec_colon_to_underscore(pci_dev@)
        } else {
            "i915"@
        },
{
    if dtype.is_discrete() {
        let x = xe_pmu_source_from(pci_dev);
        let mut r = String::from_str("i915_");
        proof {
            reveal_strlit("i915_");
            reveal_strlit("xe_");
        }
        let n = x.as_str().unicode_len();
        let rest = x.as_str().substring_char(3, n);
        r.append(rest);
        assert(rest@ =~= spec_colon_to_underscore(pci_dev@));
        r
    } else {
        String::from_str("i915")
    }
}


/// The PMU counters of one engine: where they start among the values read
/// (after the group header), and their last values seen.
#[derive(Debug, Clone, Copy, PartialEq, Eq, Structural)]
pub struct EnginePmuData {
    pub base_idx: usize,
    pub last_active: u64,
    pub last_total: u64,
}

/// A device's engine PMU counters, grouped by engine class. With
/// `two_counters` (as `xe` has) each engine has an active and a total
/// counter; otherwise (as `i915` has) only an active one, and the time
/// elapsed stands for the total.
#[derive(Debug)]
pub struct EnginesPmu {
    pub two_counters: bool,
    pub nr_evts: usize,
    pub nr_engs: usize,
    pub engs_data: Vec<Vec<EnginePmuData>>,
    pub nr_updates: u64,
}

/// The counters of the engines of class `c` among the engines of classes
/// `classes`, in order, the engine at position `i` starting at
/// `stride * i`.
pub open spec fn class_slots(classes: Seq<u16>, c: int, stride: int) -> Seq<EnginePmuData>
    decreases classes.len(),
{
    if classes.len() == 0 {
        Seq::empty()
    } else {
        let p = class_slots(classes.drop_last(), c, stride);
        if classes.last() == c {
            p.push(
                EnginePmuData {
                    base_idx: (stride * (classes.len() - 1)) as usize,
                    last_active: 0,
                    last_total: 0,
                },
            )
        } else {
            p
        }
    }
}

pub open spec fn stride_of(two_counters: bool) -> int {
    if two_counters {
        2
    } else {
        1
    }
}

proof fn lemma_class_slots_below(classes: Seq<u16>, c: int, stride: int)
    requires
        stride == 1 || stride == 2,
        stride * classes.len() <= usize::MAX,
    ensures
        forall|j: int|
            0 <= j < class_slots(classes, c, stride).len() ==> (#[trigger] class_slots(classes, c, stride)[j]).base_idx
                < stride * classes.len(),
    decreases classes.len(),
{
    if classes.len() > 0 {
        let n = classes.len() - 1;
        assert(stride * n + stride == stride * classes.len()) by (nonlinear_arith)
            requires
                n == classes.len() - 1,
        ;
        assert(0 <= stride * n) by (nonlinear_arith)
            requires
                n >= 0,
                stride >= 1,
        ;
        lemma_class_slots_below(classes.drop_last(), c, stride);
        let ps = class_slots(classes.drop_last(), c, stride);
        let cs = class_slots(classes, c, stride);
        assert forall|j: int| 0 <= j < cs.len() implies (#[trigger] cs[j]).base_idx < stride * classes.len() by {
            if j < ps.len() {
                assert(cs[j] == ps[j]);
            } else {
                assert(cs[j].base_idx == stride * n);
            }
        }
    }
}

/// Each engine's counters are grouped under its own class, and under no
/// other: the engine at position `i` starts at `stride * i` in the slots of
/// class `c` exactly when `c` is its class.
pub proof fn lemma_engine_slot(classes: Seq<u16>, c: int, stride: int, i: int)
    requires
        0 <= i < classes.len(),
        stride == 1 || stride == 2,
        stride * classes.len() <= usize::MAX,
    ensures
        (exists|j: int|
            0 <= j < class_slots(classes, c, stride).len() && (#[trigger] class_slots(classes, c, stride)[j]).base_idx
                == stride * i) <==> classes[i] == c,
    decreases classes.len(),
{
    let p = classes.drop_last();
    let n = classes.len() - 1;
    let cs = class_slots(classes, c, stride);
    let ps = class_slots(p, c, stride);
    assert(stride * n + stride == stride * classes.len()) by (nonlinear_arith)
        requires
            n == classes.len() - 1,
    ;
    assert(0 <= stride * i < stride * n || i == n) by (nonlinear_arith)
        requires
            0 <= i <= n,
            stride >= 1,
    ;
    assert(0 <= stride * n) by (nonlinear_arith)
        requires
            n >= 0,
            stride >= 1,
    ;
    lemma_class_slots_below(p, c, stride);
    if i == n {
        if classes[i] == c {
            assert(cs[ps.len() as int].base_idx == stride * i);
        } else {
            assert(cs == ps);
            assert forall|j: int| 0 <= j < cs.len() implies (#[trigger] cs[j]).base_idx != stride * i by {
                assert(ps[j].base_idx < stride * n);
            }
        }
    } else {
        lemma_engine_slot(p, c, stride, i);
        assert(p[i] == classes[i]);
        if classes.last() == c {
            assert(cs == ps.push(EnginePmuData { base_idx: (stride * n) as usize, last_active: 0, last_total: 0 }));
            if exists|j: int| 0 <= j < ps.len() && (#[trigger] ps[j]).base_idx == stride * i {
                let j = choose|j: int| 0 <= j < ps.len() && (#[trigger] ps[j]).base_idx == stride * i;
                assert(cs[j] == ps[j]);
            }
            if exists|j: int| 0 <= j < cs.len() && (#[trigger] cs[j]).base_idx == stride * i {
                let j = choose|j: int| 0 <= j < cs.len() && (#[trigger] cs[j]).base_idx == stride * i;
                if j < ps.len() {
                    assert(cs[j] == ps[j]);
                } else {
                    assert(cs[j].base_idx == stride * n);
                }
            }
        } else {
            assert(cs == ps);
        }
    }
}

impl EnginesPmu {
    /// The PMU counters of engines of classes `classes` (each below
    /// `nr_engs`), opened in that order, with none read yet.
    pub fn from(nr_engs: usize, classes: &Vec<u16>, two_counters: bool) -> (r: EnginesPmu)
        requires
            forall|i: int| 0 <= i < classes@.len() ==> (#[trigger] classes@[i]) < nr_engs,
            2 * classes@.len() <= usize::MAX,
        ensures
            r.two_counters == two_counters,
            r.nr_engs == nr_engs,
            r.nr_evts == stride_of(two_counters) * classes@.len(),
            r.nr_updates == 0,
            r.engs_data@.len() == nr_engs,
            forall|c: int|
                0 <= c < nr_engs ==> (#[trigger] r.engs_data@[c])@ == class_slots(
                    classes@,
                    c,
                    stride_of(two_counters),
                ),
    {
        let ghost stride = stride_of(two_counters);
        let mut engs_data: Vec<Vec<EnginePmuData>> = Vec::new();
        let mut c: usize = 0;
        while c < nr_engs
            invariant
                c <= nr_engs,
                engs_data@.len() == c,
                forall|q: int| 0 <= q < c ==> (#[trigger] engs_data@[q])@ == Seq::<EnginePmuData>::empty(),
            decreases nr_engs - c,
        {
            engs_data.push(Vec::new());
            c = c + 1;
        }
        assert forall|q: int| 0 <= q < nr_engs implies (#[trigger] engs_data@[q])@ == class_slots(
            classes@.take(0),
            q,
            stride,
        ) by {}
        let step: usize = if two_counters {
            2
        } else {
            1
        };
        let mut idx: usize = 0;
        let mut k: usize = 0;
        while k < classes.len()
            invariant
                k <= classes@.len(),
                2 * classes@.len() <= usize::MAX,
                step == stride,
                stride == stride_of(two_counters),
                idx == stride * k,
                forall|i: int| 0 <= i < classes@.len() ==> (#[trigger] classes@[i]) < nr_engs,
                engs_data@.len() == nr_engs,
                forall|q: int|
                    0 <= q < nr_engs ==> (#[trigger] engs_data@[q])@ == class_slots(
                        classes@.take(k as int),
                        q,
                        stride,
                    ),
            decreases classes@.len() - k,
        {
            let cl = classes[k] as usize;
            let ghost before = engs_data@;
            let mut v = engs_data.remove(cl);
            v.push(EnginePmuData { base_idx: idx, last_active: 0, last_total: 0 });
            engs_data.insert(cl, v);
            proof {
                let t = classes@.take(k + 1);
                assert(t.drop_last() =~= classes@.take(k as int));
                assert(t.last() == classes@[k as int]);
                assert forall|q: int| 0 <= q < nr_engs implies (#[trigger] engs_data@[q])@ == class_slots(
                    t,
                    q,
                    stride,
                ) by {
                    if q != cl {
                        assert(engs_data@[q] == before[q]);
                    }
                }
            }
            idx = idx + step;
            k = k + 1;
        }
        assert(classes@.take(k as int) =~= classes@);
        EnginesPmu { two_counters, nr_evts: idx, nr_engs, engs_data, nr_updates: 0 }
    }
}


/// The active counter's value read now for the engine `e`.
pub open spec fn cur_active(e: EnginePmuData, data: Seq<u64>) -> u64 {
    data[1 + e.base_idx]
}

/// Whether the engine's counters are among the `n` values read.
pub open spec fn slot_in(e: EnginePmuData, n: int, two: bool) -> bool {
    1 + e.base_idx + (if two {
        1int
    } else {
        0
    }) < n
}

/// Whether the engine's counters did not go back since the last read.
pub open spec fn slot_ok(e: EnginePmuData, data: Seq<u64>, two: bool) -> bool {
    &&& cur_active(e, data) >= e.last_active
    &&& two ==> data[2 + e.base_idx] >= e.last_total
}

/// The engine's counters with the values read now as the last seen.
pub open spec fn slot_updated(e: EnginePmuData, data: Seq<u64>, two: bool) -> EnginePmuData {
    EnginePmuData {
        base_idx: e.base_idx,
        last_active: cur_active(e, data),
        last_total: if two {
            data[2 + e.base_idx]
        } else {
            e.last_total
        },
    }
}

/// How much the engines' active counters moved since the last read, added up.
pub open spec fn act_sum(es: Seq<EnginePmuData>, data: Seq<u64>) -> int
    decreases es.len(),
{
    if es.len() == 0 {
        0
    } else {
        act_sum(es.drop_last(), data) + (cur_active(es.last(), data) - es.last().last_active)
    }
}

/// How much the engines' total counters moved since the last read, added
/// up; without total counters, the time `elapsed` for each engine.
pub open spec fn tot_sum(es: Seq<EnginePmuData>, data: Seq<u64>, two: bool, elapsed: u64) -> int
    decreases es.len(),
{
    if es.len() == 0 {
        0
    } else {
        tot_sum(es.drop_last(), data, two, elapsed) + (if two {
            data[2 + es.last().base_idx] - es.last().last_total
        } else {
            elapsed as int
        })
    }
}

/// Whether the engines of a class give their deltas: no counter went back
/// and the sums fit in 64 bits.
pub open spec fn class_ok(es: Seq<EnginePmuData>, data: Seq<u64>, two: bool, elapsed: u64) -> bool {
    &&& forall|j: int| 0 <= j < es.len() ==> slot_ok(#[trigger] es[j], data, two)
    &&& act_sum(es, data) <= u64::MAX
    &&& tot_sum(es, data, two, elapsed) <= u64::MAX
}

proof fn lemma_sums_nonneg(es: Seq<EnginePmuData>, data: Seq<u64>, two: bool, elapsed: u64)
    requires
        forall|j: int| 0 <= j < es.len() ==> slot_ok(#[trigger] es[j], data, two),
    ensures
        act_sum(es, data) >= 0,
        tot_sum(es, data, two, elapsed) >= 0,
    decreases es.len(),
{
    if es.len() > 0 {
        assert(slot_ok(es[es.len() - 1], data, two));
        lemma_sums_nonneg(es.drop_last(), data, two, elapsed);
    }
}

proof fn lemma_class_ok_prefix(es: Seq<EnginePmuData>, data: Seq<u64>, two: bool, elapsed: u64)
    requires
        es.len() > 0,
        class_ok(es, data, two, elapsed),
    ensures
        class_ok(es.drop_last(), data, two, elapsed),
{
    assert(slot_ok(es[es.len() - 1], data, two));
    assert forall|j: int| 0 <= j < es.drop_last().len() implies slot_ok(#[trigger] es.drop_last()[j], data, two) by {
        assert(es.drop_last()[j] == es[j]);
    }
}

/// The deltas of the engines `es` of one class, from the values `data`
/// read now, and their counters updated.
fn class_counters(
    es: &Vec<EnginePmuData>,
    data: &Vec<u64>,
    two: bool,
    elapsed: u64,
    counting: bool,
) -> (r: (Vec<EnginePmuData>, Option<(u64, u64)>))
    requires
        forall|j: int| 0 <= j < es@.len() ==> slot_in(#[trigger] es@[j], data@.len() as int, two),
    ensures
        r.0@ == es@.map_values(|e: EnginePmuData| slot_updated(e, data@, two)),
        r.1 == if !counting {
            Some((0u64, 0u64))
        } else if class_ok(es@, data@, two, elapsed) {
            Some((act_sum(es@, data@) as u64, tot_sum(es@, data@, two, elapsed) as u64))
        } else {
            None
        },
{
    let mut upd: Vec<EnginePmuData> = Vec::new();
    let mut acum_a: u64 = 0;
    let mut acum_t: u64 = 0;
    let mut bad = false;
    let mut j: usize = 0;
    while j < es.len()
        invariant
            j <= es@.len(),
            forall|q: int| 0 <= q < es@.len() ==> slot_in(#[trigger] es@[q], data@.len() as int, two),
            upd@ == es@.take(j as int).map_values(|e: EnginePmuData| slot_updated(e, data@, two)),
            !counting ==> !bad && acum_a == 0 && acum_t == 0,
            counting && bad ==> !class_ok(es@.take(j as int), data@, two, elapsed),
            counting && !bad ==> class_ok(es@.take(j as int), data@, two, elapsed) && acum_a == act_sum(
                es@.take(j as int),
                data@,
            ) && acum_t == tot_sum(es@.take(j as int), data@, two, elapsed),
        decreases es@.len() - j,
    {
        let e = es[j];
        assert(slot_in(es@[j as int], data@.len() as int, two));
        assert(e == es@[j as int]);
        assert(data@.len() == data.len());
        assert(1 + e.base_idx < data.len());
        let a = data[1 + e.base_idx];
        let t = if two {
            data[2 + e.base_idx]
        } else {
            elapsed
        };
        let nl = if two {
            t
        } else {
            e.last_total
        };
        upd.push(EnginePmuData { base_idx: e.base_idx, last_active: a, last_total: nl });
        let ghost pre = es@.take(j as int);
        let ghost cur = es@.take(j + 1);
        proof {
            assert(cur.drop_last() =~= pre);
            assert(cur.last() == e);
            assert(es@.take(j + 1).map_values(|e: EnginePmuData| slot_updated(e, data@, two)) =~= es@.take(
                j as int,
            ).map_values(|e: EnginePmuData| slot_updated(e, data@, two)).push(slot_updated(e, data@, two)));
            if class_ok(cur, data@, two, elapsed) {
                lemma_class_ok_prefix(cur, data@, two, elapsed);
            }
        }
        if counting && !bad {
            if a < e.last_active || (two && t < e.last_total) {
                bad = true;
                assert(!slot_ok(cur[j as int], data@, two));
            } else {
                let da = a - e.last_active;
                let dt = if two {
                    t - e.last_total
                } else {
                    elapsed
                };
                proof {
                    assert forall|q: int| 0 <= q < cur.len() implies slot_ok(#[trigger] cur[q], data@, two) by {
                        if q < j {
                            assert(cur[q] == pre[q]);
                        }
                    }
                    lemma_sums_nonneg(pre, data@, two, elapsed);
                }
                match (acum_a.checked_add(da), acum_t.checked_add(dt)) {
                    (Some(x), Some(y)) => {
                        acum_a = x;
                        acum_t = y;
                    },
                    _ => {
                        bad = true;
                    },
                }
            }
        }
        j = j + 1;
    }
    assert(es@.take(j as int) =~= es@);
    if !counting {
        (upd, Some((0, 0)))
    } else if bad {
        (upd, None)
    } else {
        (upd, Some((acum_a, acum_t)))
    }
}

/// Whether all the engines' counters are among the `n` values read.
pub open spec fn all_slots_in(ed: Seq<Vec<EnginePmuData>>, n: int, two: bool) -> bool {
    forall|c: int, j: int|
        0 <= c < ed.len() && 0 <= j < ed[c]@.len() ==> slot_in(#[trigger] ed[c]@[j], n, two)
}

/// What one read of the counters `data` (with `elapsed` the time since the
/// last read) does: `old` becomes `new`, and `r` is returned. Values that
/// miss an engine's counters leave everything as it was and make an error;
/// otherwise every engine takes its values, the reads are counted, and from
/// the second read on each class gets how much its engines' active and total
/// counters moved, added up ((0, 0) before), unless a counter went back or a
/// sum goes beyond 64 bits, which makes an error.
pub open spec fn counters_read(
    old: EnginesPmu,
    new: EnginesPmu,
    data: Seq<u64>,
    elapsed: u64,
    r: Result<Vec<(u64, u64)>, SysfsError>,
) -> bool {
    let two = old.two_counters;
    let ed = old.engs_data@;
    let counting = new.nr_updates >= 2;
    if !all_slots_in(ed, data.len() as int, two) {
        r == Err::<Vec<(u64, u64)>, SysfsError>(SysfsError::BadCounter) && new == old
    } else {
        &&& new.two_counters == two
        &&& new.nr_evts == old.nr_evts
        &&& new.nr_engs == old.nr_engs
        &&& new.nr_updates == if old.nr_updates < u64::MAX {
            (old.nr_updates + 1) as u64
        } else {
            u64::MAX
        }
        &&& new.engs_data@.len() == ed.len()
        &&& forall|c: int|
            0 <= c < ed.len() ==> (#[trigger] new.engs_data@[c])@ == ed[c]@.map_values(
                |e: EnginePmuData| slot_updated(e, data, two),
            )
        &&& if counting && exists|c: int| 0 <= c < ed.len() && !class_ok((#[trigger] ed[c])@, data, two, elapsed) {
            r == Err::<Vec<(u64, u64)>, SysfsError>(SysfsError::BadCounter)
        } else {
            r matches Ok(v) && v@.len() == ed.len() && forall|c: int|
                0 <= c < ed.len() ==> #[trigger] v@[c] == if counting {
                    (act_sum(ed[c]@, data) as u64, tot_sum(ed[c]@, data, two, elapsed) as u64)
                } else {
                    (0u64, 0u64)
                }
        }
    }
}

impl EnginesPmu {
    /// Whether all the engines' counters are among `n` values read.
    fn slots_in(&self, n: usize) -> (r: bool)
        ensures
            r == all_slots_in(self.engs_data@, n as int, self.two_counters),
    {
        let extra: usize = if self.two_counters {
            2
        } else {
            1
        };
        let mut c: usize = 0;
        while c < self.engs_data.len()
            invariant
                c <= self.engs_data@.len(),
                extra == 1 + (if self.two_counters {
                    1int
                } else {
                    0
                }),
                forall|q: int, j: int|
                    0 <= q < c && 0 <= j < self.engs_data@[q]@.len() ==> slot_in(
                        #[trigger] self.engs_data@[q]@[j],
                        n as int,
                        self.two_counters,
                    ),
            decreases self.engs_data@.len() - c,
        {
            let es = &self.engs_data[c];
            let mut j: usize = 0;
            while j < es.len()
                invariant
                    c < self.engs_data@.len(),
                    es == &self.engs_data@[c as int],
                    j <= es@.len(),
                    extra == 1 + (if self.two_counters {
                        1int
                    } else {
                        0
                    }),
                    forall|q: int| 0 <= q < j ==> slot_in(#[trigger] es@[q], n as int, self.two_counters),
                decreases es@.len() - j,
            {
                if n < extra || es[j].base_idx >= n - extra {
                    assert(!slot_in(self.engs_data@[c as int]@[j as int], n as int, self.two_counters));
                    return false;
                }
                j = j + 1;
            }
            c = c + 1;
        }
        true
    }

    /// Takes the counter values `data` read now (group header first) and,
    /// for engines without a total counter, the time `elapsed` since the
    /// last read: from the second read on, returns for each engine class how
    /// much its engines' active and total counters moved, added up ((0, 0)
    /// before). The values read become the last seen. Values that miss an
    /// engine's counters leave everything as it was; a counter that went
    /// back, or a sum beyond 64 bits, makes an error.
    pub fn engs_counters(&mut self, data: &Vec<u64>, elapsed: u64) -> (r: Result<Vec<(u64, u64)>, SysfsError>)
        ensures
            counters_read(*old(self), *final(self), data@, elapsed, r),
    {
        if !self.slots_in(data.len()) {
            return Err(SysfsError::BadCounter);
        }
        let ghost ed = self.engs_data@;
        let two = self.two_counters;
        self.nr_updates = self.nr_updates.saturating_add(1);
        let counting = self.nr_updates >= 2;
        let mut new_data: Vec<Vec<EnginePmuData>> = Vec::new();
        let mut out: Vec<(u64, u64)> = Vec::new();
        let mut bad = false;
        let mut c: usize = 0;
        while c < self.engs_data.len()
            invariant
                c <= ed.len(),
                self.engs_data@ == ed,
                two == self.two_counters,
                all_slots_in(ed, data@.len() as int, two),
                new_data@.len() == c,
                out@.len() == c,
                forall|q: int|
                    0 <= q < c ==> (#[trigger] new_data@[q])@ == ed[q]@.map_values(
                        |e: EnginePmuData| slot_updated(e, data@, two),
                    ),
                bad == (counting && exists|q: int|
                    0 <= q < c && !class_ok((#[trigger] ed[q])@, data@, two, elapsed)),
                forall|q: int|
                    0 <= q < c && (!counting || class_ok(ed[q]@, data@, two, elapsed)) ==> #[trigger] out@[q] == if counting {
                        (
                            act_sum(ed[q]@, data@) as u64,
                            tot_sum(ed[q]@, data@, two, elapsed) as u64,
                        )
                    } else {
                        (0u64, 0u64)
                    },
            decreases ed.len() - c,
        {
            assert forall|j: int| 0 <= j < ed[c as int]@.len() implies slot_in(
                #[trigger] ed[c as int]@[j],
                data@.len() as int,
                two,
            ) by {}
            let (upd, res) = class_counters(&self.engs_data[c], data, two, elapsed, counting);
            new_data.push(upd);
            match res {
                Some(x) => {
                    out.push(x);
                },
                None => {
                    bad = true;
                    out.push((0, 0));
                },
            }
            c = c + 1;
        }
        self.engs_data = new_data;
        if bad {
            Err(SysfsError::BadCounter)
        } else {
            Ok(out)
        }
    }
}

/// The driver of an `xe` function handed to a virtual machine through VFIO:
/// the device's type, and its engines' PMU counters when they could be
/// opened.
#[derive(Debug)]
pub struct DrmDriverXeVfio {
    pub dev_type: DrmDeviceType,
    pub engs_pmu: Option<EnginesPmu>,
}

/// Whether one of the directory entries `entries` (name, and whether it is
/// a directory; `None` where reading the entry failed) before the first
/// failed one is a directory named `card...`.
pub open spec fn card_dir_at(entries: Seq<Option<(String, bool)>>, k: int) -> bool {
    &&& 0 <= k < entries.len()
    &&& entries[k] matches Some(e) && is_card_dir(e)
    &&& forall|j: int| 0 <= j < k ==> passed_over(#[trigger] entries[j])
}

/// A directory named `card...`.
pub open spec fn is_card_dir(e: (String, bool)) -> bool {
    e.1 && is_prefix("card"@, e.0@)
}

/// An entry read that is not a card directory.
pub open spec fn passed_over(e: Option<(String, bool)>) -> bool {
    e matches Some(x) && !is_card_dir(x)
}

/// The DRM card of the parent function: the first directory among
/// `entries` (read in order; `None` where reading an entry failed) whose
/// name starts with `card`; none when there is none, or when an entry
/// failed before it.
pub fn find_card_dir(entries: &Vec<Option<(String, bool)>>) -> (r: Option<String>)
    ensures
        match r {
            Some(nm) => exists|k: int| card_dir_at(entries@, k) && nm@ == (entries@[k]->0).0@,
            None => forall|k: int| !card_dir_at(entries@, k),
        },
{
    proof {
        reveal_strlit("card");
    }
    let mut k: usize = 0;
    while k < entries.len()
        invariant
            k <= entries@.len(),
            forall|j: int| 0 <= j < k ==> passed_over(#[trigger] entries@[j]),
        decreases entries@.len() - k,
    {
        match &entries[k] {
            None => {
                proof {
                    assert forall|q: int| !card_dir_at(entries@, q) by {
                        if card_dir_at(entries@, q) && q > k {
                            assert(entries@[k as int] is Some);
                        }
                    }
                }
                return None;
            },
            Some((nm, is_dir)) => {
                let v = chars_of(nm.as_str());
                assert(v@.subrange(0, v@.len() as int) =~= v@);
                if *is_dir && starts_with_lit(&v, 0, v.len(), "card") {
                    proof {
                        assert(card_dir_at(entries@, k as int));
                    }
                    return Some(nm.clone());
                }
            },
        }
        k = k + 1;
    }
    proof {
        assert forall|q: int| !card_dir_at(entries@, q) by {
            if card_dir_at(entries@, q) {
                assert(passed_over(entries@[q]));
            }
        }
    }
    None
}

impl DrmDriverXeVfio {
    pub fn new(dev_type: DrmDeviceType, engs_pmu: Option<EnginesPmu>) -> (r: DrmDriverXeVfio)
        ensures
            r.dev_type == dev_type,
            r.engs_pmu == engs_pmu,
    {
        DrmDriverXeVfio { dev_type, engs_pmu }
    }

    pub fn name(&self) -> (r: &'static str)
        ensures
            r@ == "xe-vfio-pci"@,
    {
        "xe-vfio-pci"
    }

    pub fn dev_type(&self) -> (r: DrmDeviceType)
        ensures
            r == self.dev_type,
    {
        self.dev_type
    }

    /// Reads the engines' counters `data` (see [`counters_read`]); nothing
    /// to report without engine counters.
    pub fn engs_counters(&mut self, data: &Vec<u64>, elapsed: u64) -> (r: Result<Vec<(u64, u64)>, SysfsError>)
        ensures
            final(self).dev_type == old(self).dev_type,
            match old(self).engs_pmu {
                None => final(self).engs_pmu is None && (r matches Ok(v) && v@.len() == 0),
                Some(p) => final(self).engs_pmu matches Some(q) && counters_read(p, q, data@, elapsed, r),
            },
    {
        match &mut self.engs_pmu {
            None => Ok(Vec::new()),
            Some(p) => p.engs_counters(data, elapsed),
        }
    }
}

} // verus!
