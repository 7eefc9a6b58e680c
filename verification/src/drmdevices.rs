//! The DRM devices under watch: their identity, the driver that reports
//! their statistics, the figures it last reported, and the table of their
//! clients.
use vstd::prelude::*;

use crate::clients::{
    ckey, ckeys, dev_names, has_key, kept_procs, key_in_scans, lemma_kept_procs_same,
    lemma_lookup_same_keys, lookup, proc_tables, proc_views, procs_unique, referenced, same_proc,
    scan_entries, tracked_client, ClientMemDriver, ClientModel, ClientsError, DrmClientInfo,
    DrmClients, ProcScan,
};
use crate::devices::{
    pci_ids, revision_of, slot_selected, spec_revision_of, DeviceError, DeviceNodeInfo, DrmDeviceFan,
    DrmDeviceFreqLimits, DrmDeviceFreqs, DrmDeviceMemInfo, DrmDeviceType, DRM_DEVNODE_MAJOR,
};
use crate::devnum::{spec_dev_major, spec_dev_minor};
use crate::hwmon::str_eq;
use crate::text::{
    is_prefix, lemma_sorted_distinct_strict, lex_sorted, lex_strictly_sorted, sort_strings,
};

verus! {

/// The drivers that report device statistics.
#[derive(Debug, Clone, Copy, PartialEq, Eq, Structural)]
pub enum DrmDriverKind {
    Xe,
    I915,
    Amdgpu,
}

impl DrmDriverKind {
    pub fn name(&self) -> (r: &'static str)
        ensures
            r@ == match *self {
                DrmDriverKind::Xe => "xe"@,
                DrmDriverKind::I915 => "i915"@,
                DrmDriverKind::Amdgpu => "amdgpu"@,
            },
    {
        match self {
            DrmDriverKind::Xe => "xe",
            DrmDriverKind::I915 => "i915",
            DrmDriverKind::Amdgpu => "amdgpu",
        }
    }

    /// How this driver sorts the client memory of a device of type `t`.
    pub fn mem_driver(&self, t: DrmDeviceType) -> (r: ClientMemDriver)
        ensures
            r == spec_mem_driver(*self, t),
    {
        match self {
            DrmDriverKind::Xe => ClientMemDriver::Xe { discrete: t.is_discrete() },
            DrmDriverKind::I915 => ClientMemDriver::I915,
            DrmDriverKind::Amdgpu => ClientMemDriver::Amdgpu,
        }
    }
}

pub open spec fn spec_mem_driver(k: DrmDriverKind, t: DrmDeviceType) -> ClientMemDriver {
    match k {
        DrmDriverKind::Xe => ClientMemDriver::Xe { discrete: t is Discrete },
        DrmDriverKind::I915 => ClientMemDriver::I915,
        DrmDriverKind::Amdgpu => ClientMemDriver::Amdgpu,
    }
}

/// The driver for a device whose kernel driver is `drv_name`: `xe`, `i915`
/// or `amdgpu`; none for any other.
pub fn driver_from(drv_name: &str) -> (r: Option<DrmDriverKind>)
    ensures
        r == if drv_name@ == "xe"@ {
            Some(DrmDriverKind::Xe)
        } else if drv_name@ == "i915"@ {
            Some(DrmDriverKind::I915)
        } else if drv_name@ == "amdgpu"@ {
            Some(DrmDriverKind::Amdgpu)
        } else {
            None::<DrmDriverKind>
        },
{
    if str_eq(drv_name, "xe") {
        Some(DrmDriverKind::Xe)
    } else if str_eq(drv_name, "i915") {
        Some(DrmDriverKind::I915)
    } else if str_eq(drv_name, "amdgpu") {
        Some(DrmDriverKind::Amdgpu)
    } else {
        None
    }
}

/// What a device's driver reports at one refresh: its frequencies, its
/// memory, and (for a discrete device) its fans.
pub struct DeviceSample {
    pub freqs: Vec<DrmDeviceFreqs>,
    pub mem_info: DrmDeviceMemInfo,
    pub fans: Vec<DrmDeviceFan>,
}

/// One DRM device.
#[derive(Debug)]
pub struct DrmDeviceInfo {
    /// The PCI slot name (udev's sysname).
    pub pci_dev: String,
    pub vendor_id: String,
    pub vendor: String,
    pub device_id: String,
    pub device: String,
    pub revision: String,
    pub drv_name: String,
    pub dev_nodes: Vec<DeviceNodeInfo>,
    pub dev_type: DrmDeviceType,
    pub freq_limits: Vec<DrmDeviceFreqLimits>,
    pub freqs: Vec<DrmDeviceFreqs>,
    pub mem_info: DrmDeviceMemInfo,
    pub fans: Vec<DrmDeviceFan>,
    pub driver: Option<DrmDriverKind>,
}

impl DrmDeviceInfo {
    /// A device seen for the first time: its identity, no node yet, of
    /// unknown type, one frequency domain and one set of limits at 0, and
    /// no driver.
    pub fn new(
        pci_dev: String,
        vendor_id: String,
        vendor: String,
        device_id: String,
        device: String,
        revision: String,
        drv_name: String,
    ) -> (r: DrmDeviceInfo)
        ensures
            r.fresh(pci_dev@, vendor_id@, vendor@, device_id@, device@, revision@, drv_name@),
            r.dev_nodes@.len() == 0,
            r.pci_dev == pci_dev && r.vendor == vendor && r.device == device && r.drv_name == drv_name,
    {
        DrmDeviceInfo {
            pci_dev,
            vendor_id,
            vendor,
            device_id,
            device,
            revision,
            drv_name,
            dev_nodes: Vec::new(),
            dev_type: DrmDeviceType::Unknown,
            freq_limits: vec![DrmDeviceFreqLimits::new()],
            freqs: vec![DrmDeviceFreqs::new()],
            mem_info: DrmDeviceMemInfo::new(),
            fans: Vec::new(),
            driver: None,
        }
    }

    /// A device just found: these names, of unknown type, one frequency
    /// domain and one set of limits at 0, no memory, no fans and no driver.
    pub open spec fn fresh(
        &self,
        pci_dev: Seq<char>,
        vendor_id: Seq<char>,
        vendor: Seq<char>,
        device_id: Seq<char>,
        device: Seq<char>,
        revision: Seq<char>,
        drv_name: Seq<char>,
    ) -> bool {
        &&& self.pci_dev@ == pci_dev && self.vendor_id@ == vendor_id && self.vendor@ == vendor
        &&& self.device_id@ == device_id && self.device@ == device && self.revision@ == revision
        &&& self.drv_name@ == drv_name
        &&& self.dev_type == DrmDeviceType::Unknown
        &&& self.freq_limits@.len() == 1 && self.freq_limits@[0].name@.len() == 0
            && self.freq_limits@[0].minimum == 0 && self.freq_limits@[0].efficient == 0
            && self.freq_limits@[0].maximum == 0
        &&& self.freqs@.len() == 1 && self.freqs@[0].min_freq == 0 && self.freqs@[0].cur_freq == 0
            && self.freqs@[0].act_freq == 0 && self.freqs@[0].max_freq == 0
        &&& self.mem_info == DrmDeviceMemInfo::spec_zero()
        &&& self.fans@.len() == 0
        &&& self.driver is None
    }

    /// The device once it took the sample `s`: a device without driver keeps
    /// its figures; fans count only for a discrete device.
    pub open spec fn refreshed(self, s: DeviceSample) -> DrmDeviceInfo {
        if self.driver is Some {
            DrmDeviceInfo {
                freqs: s.freqs,
                mem_info: s.mem_info,
                fans: if self.dev_type is Discrete {
                    s.fans
                } else {
                    self.fans
                },
                ..self
            }
        } else {
            self
        }
    }

    pub fn has_driver(&self) -> (r: bool)
        ensures
            r == self.driver is Some,
    {
        self.driver.is_some()
    }

    /// The device's clients in the client table `clis`.
    pub fn clients<'a>(&self, clis: &'a DrmClients) -> (r: Option<&'a Vec<DrmClientInfo>>)
        ensures
            match r {
                Some(cs) => exists|d: int|
                    0 <= d < clis.infos@.len() && clis.infos@[d].dev@ == self.pci_dev@ && cs
                        == &clis.infos@[d].clients,
                None => forall|d: int| 0 <= d < clis.infos@.len() ==> (#[trigger] clis.infos@[d]).dev@ != self.pci_dev@,
            },
    {
        clis.device_clients(&self.pci_dev)
    }

    /// Takes what the device's driver reports now: a device without driver
    /// keeps its figures; fans count only for a discrete device.
    pub fn refresh(&mut self, s: DeviceSample)
        ensures
            *final(self) == old(self).refreshed(s),
    {
        if self.driver.is_some() {
            self.freqs = s.freqs;
            self.mem_info = s.mem_info;
            if self.dev_type.is_discrete() {
                self.fans = s.fans;
            }
        }
    }
}

impl DrmDeviceMemInfo {
    pub open spec fn spec_zero() -> DrmDeviceMemInfo {
        DrmDeviceMemInfo { smem_total: 0, smem_used: 0, vram_total: 0, vram_used: 0 }
    }
}

/// The devices found, and the table of their clients when clients are
/// watched.
#[derive(Debug)]
pub struct DrmDevices {
    pub infos: Vec<DrmDeviceInfo>,
    pub qmclis: Option<DrmClients>,
}

/// How the clients of the device in slot `dv` count their memory, given the
/// devices `devs`: as its driver says when it has one, else as `d0`.
pub open spec fn client_driver(
    devs: Seq<DrmDeviceInfo>,
    dv: Seq<char>,
    d0: Option<ClientMemDriver>,
) -> Option<ClientMemDriver>
    decreases devs.len(),
{
    if devs.len() == 0 {
        d0
    } else {
        let d = devs.last();
        if d.pci_dev@ == dv && d.driver is Some {
            Some(spec_mem_driver(d.driver->0, d.dev_type))
        } else {
            client_driver(devs.drop_last(), dv, d0)
        }
    }
}

/// The device `d` as added for slot `sysname`: its ids from `pciid`
/// (`vvvv:dddd`), its names, its revision without `0x` and its kernel driver;
/// all empty but the driver for a device without `PCI_ID`.
pub open spec fn added_device(
    d: DrmDeviceInfo,
    sysname: Seq<char>,
    pciid: Option<&str>,
    vendor: Seq<char>,
    device: Seq<char>,
    revision: Seq<char>,
    drv_name: Seq<char>,
) -> bool {
    match pciid {
        Some(p) => d.fresh(
            sysname,
            p@.subrange(0, 4),
            vendor,
            p@.subrange(5, 9),
            device,
            spec_revision_of(revision),
            drv_name,
        ),
        None => d.fresh(sysname, Seq::empty(), Seq::empty(), Seq::empty(), Seq::empty(), Seq::empty(), drv_name),
    }
}

pub open spec fn dev_keys(infos: Seq<DrmDeviceInfo>) -> Seq<Seq<char>> {
    infos.map_values(|d: DrmDeviceInfo| d.pci_dev@)
}

impl DrmDevices {
    /// Each device appears once; the client table is well formed.
    pub open spec fn wf(&self) -> bool {
        &&& forall|i: int, j: int|
            0 <= i < j < self.infos@.len() ==> (#[trigger] self.infos@[i]).pci_dev@ != (#[trigger] self.infos@[j]).pci_dev@
        &&& self.qmclis matches Some(c) ==> c.wf() && procs_unique(c.procs@)
    }

    pub fn new() -> (r: DrmDevices)
        ensures
            r.wf(),
            r.infos@.len() == 0,
            r.qmclis is None,
    {
        DrmDevices { infos: Vec::new(), qmclis: None }
    }

    /// Index of the device `dev` (or the number of devices).
    fn dev_pos(&self, dev: &str) -> (r: usize)
        ensures
            r <= self.infos@.len(),
            r < self.infos@.len() ==> self.infos@[r as int].pci_dev@ == dev@,
            r == self.infos@.len() ==> forall|i: int| 0 <= i < self.infos@.len() ==> (#[trigger] self.infos@[i]).pci_dev@ != dev@,
    {
        let mut k: usize = 0;
        while k < self.infos.len() && !str_eq(self.infos[k].pci_dev.as_str(), dev)
            invariant
                k <= self.infos@.len(),
                forall|i: int| 0 <= i < k ==> (#[trigger] self.infos@[i]).pci_dev@ != dev@,
            decreases self.infos@.len() - k,
        {
            k = k + 1;
        }
        k
    }

    /// The device `dev`.
    pub fn device_info(&self, dev: &String) -> (r: Option<&DrmDeviceInfo>)
        ensures
            match r {
                Some(d) => exists|i: int| 0 <= i < self.infos@.len() && d == &self.infos@[i] && d.pci_dev@ == dev@,
                None => forall|i: int| 0 <= i < self.infos@.len() ==> (#[trigger] self.infos@[i]).pci_dev@ != dev@,
            },
    {
        let k = self.dev_pos(dev.as_str());
        if k < self.infos.len() {
            Some(&self.infos[k])
        } else {
            None
        }
    }

    /// The PCI slots of the devices, in ascending order.
    pub fn devices(&self) -> (r: Vec<String>)
        ensures
            r@.map_values(|s: String| s@).to_multiset() == dev_keys(self.infos@).to_multiset(),
            lex_sorted(r@.map_values(|s: String| s@)),
            self.wf() ==> lex_strictly_sorted(r@.map_values(|s: String| s@)),
            r@.len() == self.infos@.len(),
    {
        let ghost ds = dev_keys(self.infos@);
        let mut names: Vec<String> = Vec::new();
        let mut k: usize = 0;
        while k < self.infos.len()
            invariant
                k <= self.infos@.len(),
                ds == dev_keys(self.infos@),
                names@.map_values(|s: String| s@) == ds.take(k as int),
            decreases self.infos@.len() - k,
        {
            let ghost before = names@;
            let x = self.infos[k].pci_dev.clone();
            names.push(x);
            proof {
                assert(names@ == before.push(x));
                assert(names@.map_values(|s: String| s@) =~= before.map_values(|s: String| s@).push(x@));
                assert(ds.take(k + 1) =~= ds.take(k as int).push(ds[k as int]));
            }
            k = k + 1;
        }
        assert(ds.take(k as int) =~= ds);
        let r = sort_strings(names);
        proof {
            r@.map_values(|s: String| s@).to_multiset_ensures();
            ds.to_multiset_ensures();
            if self.wf() {
                assert forall|i: int, j: int| 0 <= i < ds.len() && 0 <= j < ds.len() && i != j implies ds[i]
                    != ds[j] by {
                    if i < j {
                        assert(self.infos@[i].pci_dev@ != self.infos@[j].pci_dev@);
                    } else {
                        assert(self.infos@[j].pci_dev@ != self.infos@[i].pci_dev@);
                    }
                }
                lemma_sorted_distinct_strict(r@.map_values(|s: String| s@), ds);
            }
        }
        r
    }

    pub fn is_empty(&self) -> (r: bool)
        ensures
            r == (self.infos@.len() == 0),
    {
        self.infos.len() == 0
    }

    /// Watches the clients of the process tree of `at_pid` (of all
    /// processes when it is empty); `pid_dir_exists` tells whether
    /// `/proc/<at_pid>` is a directory. A PID that is not one leaves the
    /// devices as they were.
    pub fn set_clients_pid_tree(&mut self, at_pid: &str, pid_dir_exists: bool) -> (r: Result<(), ClientsError>)
        requires
            old(self).wf(),
        ensures
            final(self).wf(),
            final(self).infos == old(self).infos,
            (at_pid@.len() > 0 && !(crate::text::is_digit(at_pid@[0]) && pid_dir_exists)) ==> r
                == Err::<(), ClientsError>(ClientsError::InvalidPid) && final(self).qmclis
                == old(self).qmclis,
            !(at_pid@.len() > 0 && !(crate::text::is_digit(at_pid@[0]) && pid_dir_exists)) ==> r
                is Ok && (final(self).qmclis matches Some(c) && c.base_pid@ == at_pid@
                && c.infos@.len() == 0 && c.procs@.len() == 0),
    {
        let c = DrmClients::from_pid_tree(at_pid, pid_dir_exists)?;
        self.qmclis = Some(c);
        Ok(())
    }

    /// Records the device node `devnode` (device number `devnum`) of the
    /// device in slot `sysname`, when the slot is among `dev_slots` (or
    /// `dev_slots` is empty). A device seen for the first time is added with
    /// the vendor and device ids of its udev `PCI_ID` (`pciid`; all empty
    /// for a device that is not a PCI one), its names, its revision without
    /// `0x` and its kernel driver. Returns whether the node was recorded; a
    /// node that is not a DRM one is an error and changes nothing.
    pub fn add_device_node(
        &mut self,
        dev_slots: &Vec<&str>,
        sysname: String,
        pciid: Option<&str>,
        vendor: String,
        device: String,
        revision: &str,
        drv_name: String,
        devnode: String,
        devnum: u64,
    ) -> (r: Result<bool, DeviceError>)
        requires
            old(self).wf(),
            pciid matches Some(p) ==> p@.len() >= 9,
        ensures
            final(self).wf(),
            final(self).qmclis == old(self).qmclis,
            ({
                let selected = dev_slots@.len() == 0 || exists|i: int|
                    0 <= i < dev_slots@.len() && (#[trigger] dev_slots@[i])@ == sysname@;
                &&& r == if !selected {
                    Ok::<bool, DeviceError>(false)
                } else if spec_dev_major(devnum) != DRM_DEVNODE_MAJOR {
                    Err::<bool, DeviceError>(DeviceError::NotDrmMajor)
                } else {
                    Ok::<bool, DeviceError>(true)
                }
                &&& dev_keys(final(self).infos@).to_set() == if r == Ok::<bool, DeviceError>(true) {
                    dev_keys(old(self).infos@).to_set().insert(sysname@)
                } else {
                    dev_keys(old(self).infos@).to_set()
                }
                &&& r != Ok::<bool, DeviceError>(true) ==> final(self).infos@ == old(self).infos@
            }),
            r == Ok::<bool, DeviceError>(true) ==> ({
                let node = DeviceNodeInfo { devnode, major: DRM_DEVNODE_MAJOR, minor: spec_dev_minor(devnum) };
                let known = exists|i: int|
                    0 <= i < old(self).infos@.len() && (#[trigger] old(self).infos@[i]).pci_dev@ == sysname@;
                &&& known ==> final(self).infos@.len() == old(self).infos@.len() && forall|i: int|
                    0 <= i < old(self).infos@.len() ==> if (#[trigger] old(self).infos@[i]).pci_dev@ == sysname@ {
                        &&& final(self).infos@[i].dev_nodes@ == old(self).infos@[i].dev_nodes@.push(node)
                        &&& (DrmDeviceInfo { dev_nodes: final(self).infos@[i].dev_nodes, ..old(self).infos@[i] })
                            == final(self).infos@[i]
                    } else {
                        final(self).infos@[i] == old(self).infos@[i]
                    }
                &&& !known ==> final(self).infos@.len() == old(self).infos@.len() + 1
                    && final(self).infos@.take(old(self).infos@.len() as int) == old(self).infos@
                    && final(self).infos@.last().dev_nodes@ == seq![node] && added_device(
                    final(self).infos@.last(),
                    sysname@,
                    pciid,
                    vendor@,
                    device@,
                    revision@,
                    drv_name@,
                )
            }),
    {
        if !slot_selected(dev_slots, sysname.as_str()) {
            return Ok(false);
        }
        let minf = DeviceNodeInfo::from_drm(devnode, devnum)?;
        let ghost a = self.infos@;
        let mut k = self.dev_pos(sysname.as_str());
        if k == self.infos.len() {
            let (vendor_id, device_id, vendor, device, rev) = match pciid {
                Some(p) => {
                    let (v, d) = pci_ids(p);
                    (v, d, vendor, device, revision_of(revision))
                },
                None => (String::new(), String::new(), String::new(), String::new(), String::new()),
            };
            let dinf = DrmDeviceInfo::new(sysname, vendor_id, vendor, device_id, device, rev, drv_name);
            self.infos.push(dinf);
            proof {
                let b = self.infos@;
                assert(dev_keys(b) =~= dev_keys(a).push(b[k as int].pci_dev@));
                dev_keys(a).lemma_push_to_set_commute(b[k as int].pci_dev@);
                assert forall|i: int, j: int| 0 <= i < j < b.len() implies (#[trigger] b[i]).pci_dev@ != (#[trigger] b[j]).pci_dev@ by {
                    if j < a.len() {
                        assert(b[i] == a[i] && b[j] == a[j]);
                    } else {
                        assert(b[i] == a[i]);
                    }
                }
            }
        } else {
            proof {
                assert(dev_keys(a)[k as int] == sysname@);
                assert(dev_keys(a).to_set().contains(sysname@));
                assert(dev_keys(a).to_set().insert(sysname@) =~= dev_keys(a).to_set());
            }
        }
        let ghost b0 = self.infos@;
        let mut dinf = self.infos.remove(k);
        dinf.dev_nodes.push(minf);
        self.infos.insert(k, dinf);
        proof {
            let b = self.infos@;
            assert(dev_keys(b) =~= dev_keys(b0));
            assert forall|i: int, j: int| 0 <= i < j < b.len() implies (#[trigger] b[i]).pci_dev@ != (#[trigger] b[j]).pci_dev@ by {
                assert(b[i].pci_dev@ == b0[i].pci_dev@);
                assert(b[j].pci_dev@ == b0[j].pci_dev@);
            }
        }
        Ok(true)
    }

    /// Gives the device `dev` the driver `kind`, with the type and frequency
    /// limits that the driver found. Returns whether the device is known.
    pub fn set_device_driver(
        &mut self,
        dev: &String,
        kind: DrmDriverKind,
        dev_type: DrmDeviceType,
        freq_limits: Vec<DrmDeviceFreqLimits>,
    ) -> (r: bool)
        requires
            old(self).wf(),
        ensures
            final(self).wf(),
            final(self).qmclis == old(self).qmclis,
            dev_keys(final(self).infos@) == dev_keys(old(self).infos@),
            r == exists|i: int| 0 <= i < old(self).infos@.len() && (#[trigger] old(self).infos@[i]).pci_dev@ == dev@,
            forall|i: int|
                0 <= i < old(self).infos@.len() ==> final(self).infos@[i] == if (#[trigger] old(
                    self,
                ).infos@[i]).pci_dev@ == dev@ {
                    (DrmDeviceInfo { driver: Some(kind), dev_type, freq_limits, ..old(self).infos@[i] })
                } else {
                    old(self).infos@[i]
                },
            final(self).infos@.len() == old(self).infos@.len(),
    {
        let k = self.dev_pos(dev.as_str());
        if k == self.infos.len() {
            return false;
        }
        let ghost b0 = self.infos@;
        let mut dinf = self.infos.remove(k);
        dinf.driver = Some(kind);
        dinf.dev_type = dev_type;
        dinf.freq_limits = freq_limits;
        self.infos.insert(k, dinf);
        proof {
            let b = self.infos@;
            assert(dev_keys(b) =~= dev_keys(b0));
            assert forall|i: int, j: int| 0 <= i < j < b.len() implies (#[trigger] b[i]).pci_dev@ != (#[trigger] b[j]).pci_dev@ by {
                assert(b[i].pci_dev@ == b0[i].pci_dev@);
                assert(b[j].pci_dev@ == b0[j].pci_dev@);
            }
            assert forall|i: int| 0 <= i < b0.len() && i != k implies b0[i].pci_dev@ != dev@ by {
                if i < k {
                    assert(b0[i].pci_dev@ != b0[k as int].pci_dev@);
                } else {
                    assert(b0[k as int].pci_dev@ != b0[i].pci_dev@);
                }
            }
        }
        true
    }

    /// Refreshes the devices: when clients are watched, rebuilds the client
    /// table from the scan `scans` and lets each device's driver report its
    /// clients' memory; then each device takes what its driver reports,
    /// `samples[i]` for device `i`.
    pub fn refresh(&mut self, samples: Vec<DeviceSample>, scans: Vec<ProcScan>)
        requires
            old(self).wf(),
            samples@.len() == old(self).infos@.len(),
        ensures
            final(self).wf(),
            final(self).infos@.len() == old(self).infos@.len(),
            forall|i: int|
                0 <= i < old(self).infos@.len() ==> #[trigger] final(self).infos@[i] == old(self).infos@[i].refreshed(
                    samples@[i],
                ),
            old(self).qmclis is None ==> final(self).qmclis is None,
            old(self).qmclis is Some ==> (final(self).qmclis matches Some(c) && forall|dv: Seq<char>, m: u32, i: u32|
                #![trigger lookup(c.infos@, dv, m, i)]
                lookup(c.infos@, dv, m, i) is Some <==> key_in_scans(scans@, scans@.len() as int, (dv, m, i))),
            old(self).qmclis matches Some(oc) ==> (final(self).qmclis matches Some(c) && forall|dv: Seq<char>, m: u32, i: u32|
                #![trigger lookup(c.infos@, dv, m, i)]
                lookup(c.infos@, dv, m, i) matches Some(cl) ==> ({
                    let occ = scan_entries(scans@).filter(has_key((dv, m, i)));
                    let t = tracked_client(lookup(oc.infos@, dv, m, i), cl.model().proc, occ);
                    &&& occ.len() > 0
                    &&& cl.model() == (ClientModel { driver: client_driver(old(self).infos@, dv, t.driver), ..t })
                    &&& same_proc(cl.model().proc, occ[0].0)
                    &&& proc_views(c.procs@).contains(cl.model().proc)
                }) && proc_views(c.procs@) == kept_procs(proc_tables(proc_views(oc.procs@), scans@), c.infos@)),
    {
        let ghost devs = self.infos@;
        let mut clis_opt = self.qmclis.take();
        match clis_opt {
            None => {},
            Some(mut clis) => {
                let ghost oc = clis;
                clis.refresh(scans);
                let ghost t0 = clis.infos@;
                let ghost p0 = clis.procs;
                proof {
                    assert forall|dv: Seq<char>, m: u32, i: u32|
                        #![trigger lookup(clis.infos@, dv, m, i)]
                        match lookup(t0, dv, m, i) {
                            Some(c0) => lookup(clis.infos@, dv, m, i) matches Some(c) && c.model() == (ClientModel {
                                driver: client_driver(devs.take(0), dv, c0.model().driver),
                                ..c0.model()
                            }),
                            None => lookup(clis.infos@, dv, m, i) is None,
                        } by {
                        assert(devs.take(0).len() == 0);
                    }
                }
                let mut j: usize = 0;
                while j < self.infos.len()
                    invariant
                        j <= self.infos@.len(),
                        self.infos@ == devs,
                        clis.wf(),
                        procs_unique(clis.procs@),
                        forall|dv: Seq<char>, m: u32, i: u32|
                            #![trigger lookup(clis.infos@, dv, m, i)]
                            lookup(clis.infos@, dv, m, i) is Some <==> key_in_scans(scans@, scans@.len() as int, (dv, m, i)),
                        forall|dv: Seq<char>, m: u32, i: u32|
                            #![trigger lookup(clis.infos@, dv, m, i)]
                            match lookup(t0, dv, m, i) {
                                Some(c0) => lookup(clis.infos@, dv, m, i) matches Some(c) && c.model() == (ClientModel {
                                    driver: client_driver(devs.take(j as int), dv, c0.model().driver),
                                    ..c0.model()
                                }),
                                None => lookup(clis.infos@, dv, m, i) is None,
                            },
                        clis.procs == p0,
                        forall|p: crate::procinfo::ProcModel| #[trigger] referenced(clis.infos@, p) == referenced(t0, p),
                    decreases self.infos@.len() - j,
                {
                    let ghost tj = clis.infos@;
                    proof {
                        assert(devs.take(j + 1).drop_last() =~= devs.take(j as int));
                        assert(devs.take(j + 1).last() == devs[j as int]);
                    }
                    match self.infos[j].driver {
                        Some(drv) => {
                            let md = drv.mem_driver(self.infos[j].dev_type);
                            let ghost before = clis.infos@;
                            clis.set_dev_clients_driver(&self.infos[j].pci_dev, md);
                            proof {
                                assert forall|dv: Seq<char>, m: u32, i: u32|
                                    #![trigger lookup(clis.infos@, dv, m, i)]
                                    match lookup(t0, dv, m, i) {
                                        Some(c0) => lookup(clis.infos@, dv, m, i) matches Some(c) && c.model() == (ClientModel {
                                            driver: client_driver(devs.take(j + 1), dv, c0.model().driver),
                                            ..c0.model()
                                        }),
                                        None => lookup(clis.infos@, dv, m, i) is None,
                                    } by {
                                    assert(match lookup(t0, dv, m, i) {
                                        Some(c0) => lookup(tj, dv, m, i) matches Some(c) && c.model() == (ClientModel {
                                            driver: client_driver(devs.take(j as int), dv, c0.model().driver),
                                            ..c0.model()
                                        }),
                                        None => lookup(tj, dv, m, i) is None,
                                    });
                                }
                                let after = clis.infos@;
                                assert forall|d: int| 0 <= d < before.len() implies ckeys((#[trigger] before[d]).clients@)
                                    == ckeys(after[d].clients@) by {
                                    assert forall|c: int| 0 <= c < before[d].clients@.len() implies ckey(
                                        #[trigger] before[d].clients@[c],
                                    ) == ckey(after[d].clients@[c]) by {
                                        assert(after[d].clients@[c].model().drm_minor == before[d].clients@[c].model().drm_minor);
                                        assert(after[d].clients@[c].model().client_id == before[d].clients@[c].model().client_id);
                                    }
                                    assert(ckeys(before[d].clients@) =~= ckeys(after[d].clients@));
                                }
                                assert(before.len() == after.len()) by {
                                    assert(dev_names(before).len() == dev_names(after).len());
                                }
                                lemma_lookup_same_keys(before, after);
                            }
                        },
                        None => {},
                    }
                    j = j + 1;
                }
                proof {
                    assert(devs.take(j as int) =~= devs);
                    lemma_kept_procs_same(proc_tables(proc_views(oc.procs@), scans@), t0, clis.infos@);
                }
                self.qmclis = Some(clis);
            },
        }
        let ghost a = self.infos@;
        let ghost qc = self.qmclis;
        let ghost all = samples@;
        let mut samples = samples;
        let mut k: usize = self.infos.len();
        while k > 0
            invariant
                k <= self.infos@.len() == a.len(),
                samples@.len() == k,
                samples@ == all.take(k as int),
                all.len() == a.len(),
                dev_keys(self.infos@) == dev_keys(a),
                self.qmclis == qc,
                forall|i: int|
                    0 <= i < a.len() ==> #[trigger] self.infos@[i] == if i >= k {
                        a[i].refreshed(all[i])
                    } else {
                        a[i]
                    },
            decreases k,
        {
            k = k - 1;
            let s = samples.pop().unwrap();
            proof {
                assert(s == all[k as int]);
                assert(samples@ =~= all.take(k as int));
            }
            let ghost before = self.infos@;
            let mut dinf = self.infos.remove(k);
            dinf.refresh(s);
            self.infos.insert(k, dinf);
            proof {
                let b = self.infos@;
                assert(dev_keys(b) =~= dev_keys(before));
                assert forall|i: int| 0 <= i < a.len() && i != k implies b[i] == before[i] by {}
            }
        }
        proof {
            let b = self.infos@;
            assert forall|i: int, j: int| 0 <= i < j < b.len() implies (#[trigger] b[i]).pci_dev@ != (#[trigger] b[j]).pci_dev@ by {
                assert(dev_keys(b)[i] == dev_keys(a)[i]);
                assert(dev_keys(b)[j] == dev_keys(a)[j]);
            }
        }
    }
}

} // verus!
