//! GPU usage statistics for Linux DRM devices: parsing of DRM fdinfo, procfs,
//! sysfs and hwmon data, per-client engine accounting and the bookkeeping
//! behind the statistics views.
#![allow(unused_imports)]

use vstd::prelude::*;

pub mod text;
pub mod devnum;
pub mod fdinfo;
pub mod procinfo;
pub mod clients;
pub mod ui;
pub mod intel;
pub mod hwmon;
pub mod devices;
pub mod qmdevice;
pub mod qmdrmfdinfo;
pub mod qmprocinfo;
pub mod qmdrmclients;
pub mod qmdrmdrivers;
pub mod qmdrmdevices;
pub mod appdata;
pub mod qmappdata;
pub mod qmhwmon;
pub mod view;
pub mod drivers;
pub mod power;
pub mod drvdata;
pub mod amdgpu;
pub mod drmdevices;

verus! {
} // verus!
