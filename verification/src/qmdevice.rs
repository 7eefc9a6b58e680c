//! Devices of the DRM subsystem as the first device scan recorded them, and
//! the drivers that know how to handle them.
use vstd::prelude::*;

use crate::devnum::{dev_major, dev_minor, spec_dev_major, spec_dev_minor};

verus! {

/// A DRM device node and the PCI device it belongs to.
#[derive(Debug)]
pub struct QmDevice {
    pub subsystem: String,
    pub devnode: String,
    pub devnum: (u32, u32),
    /// The PCI slot name.
    pub sysname: String,
    pub syspath: String,
    pub vendor_id: String,
    pub vendor: String,
    pub device_id: String,
    pub device: String,
    pub drv_name: String,
}

impl QmDevice {
    pub fn major(&self) -> (r: u32)
        ensures
            r == self.devnum.0,
    {
        self.devnum.0
    }

    pub fn minor(&self) -> (r: u32)
        ensures
            r == self.devnum.1,
    {
        self.devnum.1
    }

    /// The major and minor numbers of the device number `dnum`.
    pub fn mj_mn_from_devnum(dnum: u64) -> (r: (u32, u32))
        ensures
            r == (spec_dev_major(dnum), spec_dev_minor(dnum)),
    {
        (dev_major(dnum), dev_minor(dnum))
    }
}

/// A driver that devices can be handed to.
pub trait QmDriver {
    spec fn spec_name(&self) -> Seq<char>;

    fn name(&self) -> (r: &str)
        ensures
            r@ == self.spec_name(),
    ;
}

/// The driver for `xe` devices.
#[derive(Debug)]
pub struct XeDriver {}

impl QmDriver for XeDriver {
    open spec fn spec_name(&self) -> Seq<char> {
        "xe"@
    }

    fn name(&self) -> (r: &str) {
        "xe"
    }
}

impl XeDriver {
    pub fn new() -> (r: XeDriver)
        ensures
            r.spec_name() == "xe"@,
    {
        XeDriver {  }
    }
}

/// A driver for devices that no driver here handles.
#[derive(Debug)]
pub struct NotImplDriver {}

impl QmDriver for NotImplDriver {
    open spec fn spec_name(&self) -> Seq<char> {
        "No QmDriver implemented"@
    }

    fn name(&self) -> (r: &str) {
        "No QmDriver implemented"
    }
}

/// The driver that [`find_driver`] picks.
#[derive(Debug)]
pub enum QmDriverKind {
    Xe(XeDriver),
    NotImpl(NotImplDriver),
}

impl QmDriver for QmDriverKind {
    open spec fn spec_name(&self) -> Seq<char> {
        match self {
            QmDriverKind::Xe(d) => d.spec_name(),
            QmDriverKind::NotImpl(d) => d.spec_name(),
        }
    }

    fn name(&self) -> (r: &str) {
        match self {
            QmDriverKind::Xe(d) => d.name(),
            QmDriverKind::NotImpl(d) => d.name(),
        }
    }
}

/// The driver for devices of the kernel driver `dname`: the `xe` driver for
/// `xe`, else one that handles nothing.
pub fn find_driver(dname: &str) -> (r: QmDriverKind)
    ensures
        (dname@ == "xe"@) == (r is Xe),
{
    proof {
        reveal_strlit("xe");
    }
    if crate::hwmon::str_eq(dname, "xe") {
        return QmDriverKind::Xe(XeDriver::new());
    }
    QmDriverKind::NotImpl(NotImplDriver {  })
}

} // verus!
