//! Drivers of the first-generation device tracking.
use vstd::prelude::*;

use crate::clients::ClientMemDriver;
use crate::drivers::{spec_sysfs_u64, sysfs_u64, SysfsError};
use crate::drvdata::{mem_totals, totals_fit, MemRegionUsage};
use crate::qmdrmdevices::{QmDrmDeviceFreqs, QmDrmDeviceInfo, QmDrmDeviceMemInfo, QmDrmDeviceType};

verus! {

/// What a device driver tells about its devices and their clients.
pub trait QmDrmDriver {
    spec fn spec_name(&self) -> Seq<char>;

    /// The kernel driver's name.
    fn name(&self) -> (r: &str)
        ensures
            r@ == self.spec_name(),
    ;

    /// How the driver sorts the memory regions of the clients of a device of
    /// type `dev_type`.
    fn client_mem_driver(&self, dev_type: QmDrmDeviceType) -> (r: ClientMemDriver);
}

/// The drivers that are handled.
#[derive(Debug, Clone, Copy, PartialEq, Eq, Structural)]
pub enum QmDrmDriverKind {
    Xe,
    I915,
}

impl QmDrmDriver for QmDrmDriverKind {
    open spec fn spec_name(&self) -> Seq<char> {
        match self {
            QmDrmDriverKind::Xe => "xe"@,
            QmDrmDriverKind::I915 => "i915"@,
        }
    }

    fn name(&self) -> (r: &str) {
        match self {
            QmDrmDriverKind::Xe => "xe",
            QmDrmDriverKind::I915 => "i915",
        }
    }

    fn client_mem_driver(&self, dev_type: QmDrmDeviceType) -> (r: ClientMemDriver)
        ensures
            r == spec_client_mem_driver(*self, dev_type),
    {
        match self {
            QmDrmDriverKind::Xe => ClientMemDriver::Xe { discrete: dev_type.is_discrete() },
            QmDrmDriverKind::I915 => ClientMemDriver::I915,
        }
    }
}

/// How `drv` sorts the client memory of a device of type `t`.
pub open spec fn spec_client_mem_driver(drv: QmDrmDriverKind, t: QmDrmDeviceType) -> ClientMemDriver {
    match drv {
        QmDrmDriverKind::Xe => ClientMemDriver::Xe { discrete: t == QmDrmDeviceType::Discrete },
        QmDrmDriverKind::I915 => ClientMemDriver::I915,
    }
}

impl QmDrmDriverKind {
    /// How this driver sorts the client memory of a device of type `t`.
    pub fn mem_driver(&self, t: QmDrmDeviceType) -> (r: ClientMemDriver)
        ensures
            r == spec_client_mem_driver(*self, t),
    {
        match self {
            QmDrmDriverKind::Xe => ClientMemDriver::Xe { discrete: t.is_discrete() },
            QmDrmDriverKind::I915 => ClientMemDriver::I915,
        }
    }
}

/// The driver for the device `qmd`, by its kernel driver's name: `xe` or
/// `i915`; none for any other.
pub fn driver_from(qmd: &QmDrmDeviceInfo) -> (r: Option<QmDrmDriverKind>)
    ensures
        r == if qmd.drv_name@ == "xe"@ {
            Some(QmDrmDriverKind::Xe)
        } else if qmd.drv_name@ == "i915"@ {
            Some(QmDrmDriverKind::I915)
        } else {
            None::<QmDrmDriverKind>
        },
{
    if crate::hwmon::str_eq(qmd.drv_name.as_str(), "xe") {
        Some(QmDrmDriverKind::Xe)
    } else if crate::hwmon::str_eq(qmd.drv_name.as_str(), "i915") {
        Some(QmDrmDriverKind::I915)
    } else {
        None
    }
}


/// An `xe` device's type from its configuration parameters (at least the
/// count and the flags): discrete when the flags have the has-VRAM bit
/// (bit 0).
pub fn xe_device_type(config: &Vec<u64>) -> (r: QmDrmDeviceType)
    requires
        config@.len() >= 2,
    ensures
        r == if config@[1] % 2 == 1 {
            QmDrmDeviceType::Discrete
        } else {
            QmDrmDeviceType::Integrated
        },
{
    let flags = config[1];
    assert((flags & 1 > 0) == (flags % 2 == 1)) by (bit_vector);
    if flags & 1 > 0 {
        QmDrmDeviceType::Discrete
    } else {
        QmDrmDeviceType::Integrated
    }
}

/// An `xe` device's memory from its memory regions: the sizes and usage of
/// the system memory regions and of the VRAM regions added up; `None` when a
/// sum does not fit in 64 bits.
pub fn xe_device_mem_info(regs: &Vec<MemRegionUsage>) -> (r: Option<QmDrmDeviceMemInfo>)
    ensures
        match r {
            Some(mi) => {
                let t = mem_totals(regs@);
                &&& totals_fit(t)
                &&& mi == (QmDrmDeviceMemInfo {
                    smem_total: t.smem_total as u64,
                    smem_used: t.smem_used as u64,
                    vram_total: t.vram_total as u64,
                    vram_used: t.vram_used as u64,
                })
            },
            None => !totals_fit(mem_totals(regs@)),
        },
{
    match crate::drvdata::xe_mem_info(regs) {
        Some(m) => Some(
            QmDrmDeviceMemInfo {
                smem_total: m.smem_total,
                smem_used: m.smem_used,
                vram_total: m.vram_total,
                vram_used: m.vram_used,
            },
        ),
        None => None,
    }
}

/// An `xe` device's frequencies from the texts of its `min_freq`,
/// `cur_freq`, `act_freq` and `max_freq` files; the first that is not a
/// number makes the error.
pub fn xe_device_freqs(min: &str, cur: &str, act: &str, max: &str) -> (r: Result<QmDrmDeviceFreqs, SysfsError>)
    ensures
        match r {
            Ok(f) => spec_sysfs_u64(min@) == Ok::<u64, SysfsError>(f.min_freq) && spec_sysfs_u64(cur@)
                == Ok::<u64, SysfsError>(f.cur_freq) && spec_sysfs_u64(act@) == Ok::<u64, SysfsError>(
                f.act_freq,
            ) && spec_sysfs_u64(max@) == Ok::<u64, SysfsError>(f.max_freq),
            Err(e) => (spec_sysfs_u64(min@) == Err::<u64, SysfsError>(e)) || (spec_sysfs_u64(min@) is Ok
                && spec_sysfs_u64(cur@) == Err::<u64, SysfsError>(e)) || (spec_sysfs_u64(min@) is Ok
                && spec_sysfs_u64(cur@) is Ok && spec_sysfs_u64(act@) == Err::<u64, SysfsError>(e)) || (
            spec_sysfs_u64(min@) is Ok && spec_sysfs_u64(cur@) is Ok && spec_sysfs_u64(act@) is Ok
                && spec_sysfs_u64(max@) == Err::<u64, SysfsError>(e)),
        },
{
    let min_freq = sysfs_u64(min)?;
    let cur_freq = sysfs_u64(cur)?;
    let act_freq = sysfs_u64(act)?;
    let max_freq = sysfs_u64(max)?;
    Ok(QmDrmDeviceFreqs { min_freq, cur_freq, act_freq, max_freq })
}

} // verus!
