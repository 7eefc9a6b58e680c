//! DRM devices of the first-generation tracking: their identity, type,
//! frequencies and memory, their DRM minors and their clients.
use vstd::prelude::*;

use crate::devices::{pci_ids, revision_of, spec_revision_of, DeviceError};
use crate::devnum::{dev_major, dev_minor, spec_dev_major, spec_dev_minor};
use crate::clients::ClientMemDriver;
use crate::qmdrmclients::{
    lookup, qm_has_key, qm_scan_entries, qm_tracked_client, QmClientModel, QmDrmClientInfo,
    QmDrmClients, QmProcScan,
};
use crate::qmdrmdrivers::{driver_from, spec_client_mem_driver, QmDrmDriverKind};
use crate::text::{
    is_prefix, lemma_sorted_distinct_strict, lex_sorted, lex_strictly_sorted, sort_strings,
};

verus! {

/// Whether a device is integrated or discrete.
#[derive(Debug, Clone, Copy, PartialEq, Eq, Structural)]
pub enum QmDrmDeviceType {
    Unknown,
    Integrated,
    Discrete,
}

impl QmDrmDeviceType {
    pub fn is_discrete(&self) -> (r: bool)
        ensures
            r == (*self == QmDrmDeviceType::Discrete),
    {
        *self == QmDrmDeviceType::Discrete
    }

    pub fn is_integrated(&self) -> (r: bool)
        ensures
            r == (*self == QmDrmDeviceType::Integrated),
    {
        *self == QmDrmDeviceType::Integrated
    }

    /// `Discrete`, `Integrated` or `Unknown`.
    pub fn to_string(&self) -> (r: String)
        ensures
            r@ == match *self {
                QmDrmDeviceType::Discrete => "Discrete"@,
                QmDrmDeviceType::Integrated => "Integrated"@,
                QmDrmDeviceType::Unknown => "Unknown"@,
            },
    {
        if self.is_discrete() {
            String::from_str("Discrete")
        } else if self.is_integrated() {
            String::from_str("Integrated")
        } else {
            String::from_str("Unknown")
        }
    }
}

/// A device's frequencies.
#[derive(Debug, Clone, Copy, PartialEq, Eq, Structural)]
pub struct QmDrmDeviceFreqs {
    pub min_freq: u64,
    pub cur_freq: u64,
    pub act_freq: u64,
    pub max_freq: u64,
}

impl QmDrmDeviceFreqs {
    pub fn new() -> (r: QmDrmDeviceFreqs)
        ensures
            r == (QmDrmDeviceFreqs { min_freq: 0, cur_freq: 0, act_freq: 0, max_freq: 0 }),
    {
        QmDrmDeviceFreqs { min_freq: 0, cur_freq: 0, act_freq: 0, max_freq: 0 }
    }
}

/// A device's memory: total and used bytes of system memory and VRAM.
#[derive(Debug, Clone, Copy, PartialEq, Eq, Structural)]
pub struct QmDrmDeviceMemInfo {
    pub smem_total: u64,
    pub smem_used: u64,
    pub vram_total: u64,
    pub vram_used: u64,
}

impl QmDrmDeviceMemInfo {
    pub fn new() -> (r: QmDrmDeviceMemInfo)
        ensures
            r == (QmDrmDeviceMemInfo { smem_total: 0, smem_used: 0, vram_total: 0, vram_used: 0 }),
    {
        QmDrmDeviceMemInfo { smem_total: 0, smem_used: 0, vram_total: 0, vram_used: 0 }
    }
}

/// A device node of a DRM device and its minor number.
#[derive(Debug)]
pub struct QmDrmMinorInfo {
    pub devnode: String,
    pub drm_minor: u32,
}

impl QmDrmMinorInfo {
    /// This is the minor of the node `devnode` with device number `devnum`.
    pub open spec fn is_node(&self, devnode: Seq<char>, devnum: u64) -> bool {
        self.devnode@ == devnode && self.drm_minor == spec_dev_minor(devnum)
    }

    /// The node `devnode` with device number `devnum`, which must be a DRM
    /// one.
    pub fn from(devnode: &String, devnum: u64) -> (r: Result<QmDrmMinorInfo, DeviceError>)
        ensures
            spec_dev_major(devnum) != 226 ==> r == Err::<QmDrmMinorInfo, DeviceError>(
                DeviceError::NotDrmMajor,
            ),
            spec_dev_major(devnum) == 226 ==> (r matches Ok(m) && m.devnode@ == devnode@ && m.drm_minor
                == spec_dev_minor(devnum)),
    {
        let mj = dev_major(devnum);
        let mn = dev_minor(devnum);
        if mj != 226 {
            return Err(DeviceError::NotDrmMajor);
        }
        Ok(QmDrmMinorInfo { devnode: devnode.clone(), drm_minor: mn })
    }
}

/// One DRM device.
#[derive(Debug)]
pub struct QmDrmDeviceInfo {
    /// The PCI slot name.
    pub pci_dev: String,
    pub dev_type: QmDrmDeviceType,
    pub freqs: QmDrmDeviceFreqs,
    pub mem_info: QmDrmDeviceMemInfo,
    pub vendor_id: String,
    pub vendor: String,
    pub device_id: String,
    pub device: String,
    pub revision: String,
    pub drv_name: String,
    pub drm_minors: Vec<QmDrmMinorInfo>,
    pub driver: Option<QmDrmDriverKind>,
}

impl QmDrmDeviceInfo {
    /// The device's clients in the client table `clis`.
    pub fn clients<'a>(&self, clis: &'a QmDrmClients) -> (r: Option<&'a Vec<QmDrmClientInfo>>)
        ensures
            match r {
                Some(cs) => exists|d: int|
                    0 <= d < clis.infos@.len() && clis.infos@[d].dev@ == self.pci_dev@ && cs
                        == &clis.infos@[d].clients,
                None => forall|d: int| 0 <= d < clis.infos@.len() ==> (#[trigger] clis.infos@[d]).dev@ != self.pci_dev@,
            },
    {
        clis.device_clients(&self.pci_dev)
    }

    /// Takes the frequencies and memory that the device's driver reports
    /// now; a device without driver keeps its figures.
    pub open spec fn refreshed(self, freqs: QmDrmDeviceFreqs, mem_info: QmDrmDeviceMemInfo) -> QmDrmDeviceInfo {
        if self.driver is Some {
            QmDrmDeviceInfo { freqs, mem_info, ..self }
        } else {
            self
        }
    }

    pub fn refresh(&mut self, freqs: QmDrmDeviceFreqs, mem_info: QmDrmDeviceMemInfo)
        ensures
            *final(self) == old(self).refreshed(freqs, mem_info),
    {
        if self.driver.is_some() {
            self.freqs = freqs;
            self.mem_info = mem_info;
        }
    }
}

/// The devices found, and the table of their clients when clients are
/// watched.
#[derive(Debug)]
pub struct QmDrmDevices {
    pub infos: Vec<QmDrmDeviceInfo>,
    pub qmclis: Option<QmDrmClients>,
}

/// How the clients of the device in slot `dv` count their memory, given the
/// devices `devs`: as its driver says when it has one, else as `d0`.
pub open spec fn qm_client_driver(
    devs: Seq<QmDrmDeviceInfo>,
    dv: Seq<char>,
    d0: Option<ClientMemDriver>,
) -> Option<ClientMemDriver>
    decreases devs.len(),
{
    if devs.len() == 0 {
        d0
    } else {
        let d = devs.last();
        if d.pci_dev@ == dv && d.driver is Some {
            Some(spec_client_mem_driver(d.driver->0, d.dev_type))
        } else {
            qm_client_driver(devs.drop_last(), dv, d0)
        }
    }
}

/// The device `d` as added for slot `sysname`: its ids from `pciid`
/// (`vvvv:dddd`), its names, its revision without `0x`, its kernel driver and
/// the driver found for it; of unknown type, with figures at 0.
pub open spec fn added_device(
    d: QmDrmDeviceInfo,
    sysname: Seq<char>,
    pciid: Seq<char>,
    vendor: Seq<char>,
    device: Seq<char>,
    revision: Seq<char>,
    drv_name: Seq<char>,
) -> bool {
    &&& d.pci_dev@ == sysname && d.vendor_id@ == pciid.subrange(0, 4) && d.device_id@ == pciid.subrange(5, 9)
    &&& d.vendor@ == vendor && d.device@ == device && d.revision@ == spec_revision_of(revision)
    &&& d.drv_name@ == drv_name
    &&& d.dev_type == QmDrmDeviceType::Unknown
    &&& d.freqs == (QmDrmDeviceFreqs { min_freq: 0, cur_freq: 0, act_freq: 0, max_freq: 0 })
    &&& d.mem_info == (QmDrmDeviceMemInfo { smem_total: 0, smem_used: 0, vram_total: 0, vram_used: 0 })
    &&& d.driver == if drv_name == "xe"@ {
        Some(QmDrmDriverKind::Xe)
    } else if drv_name == "i915"@ {
        Some(QmDrmDriverKind::I915)
    } else {
        None::<QmDrmDriverKind>
    }
}

pub open spec fn dev_keys(infos: Seq<QmDrmDeviceInfo>) -> Seq<Seq<char>> {
    infos.map_values(|d: QmDrmDeviceInfo| d.pci_dev@)
}

impl QmDrmDevices {
    /// Each device appears once; the client table is well formed.
    pub open spec fn wf(&self) -> bool {
        &&& forall|i: int, j: int|
            0 <= i < j < self.infos@.len() ==> (#[trigger] self.infos@[i]).pci_dev@ != (#[trigger] self.infos@[j]).pci_dev@
        &&& self.qmclis matches Some(c) ==> c.wf()
    }

    pub fn new() -> (r: QmDrmDevices)
        ensures
            r.wf(),
            r.infos@.len() == 0,
            r.qmclis is None,
    {
        QmDrmDevices { infos: Vec::new(), qmclis: None }
    }

    /// Index of the device `dev` (or the number of devices).
    fn dev_pos(&self, dev: &str) -> (r: usize)
        ensures
            r <= self.infos@.len(),
            r < self.infos@.len() ==> self.infos@[r as int].pci_dev@ == dev@,
            r == self.infos@.len() ==> forall|i: int| 0 <= i < self.infos@.len() ==> (#[trigger] self.infos@[i]).pci_dev@ != dev@,
    {
        let mut k: usize = 0;
        while k < self.infos.len() && !crate::hwmon::str_eq(self.infos[k].pci_dev.as_str(), dev)
            invariant
                k <= self.infos@.len(),
                forall|i: int| 0 <= i < k ==> (#[trigger] self.infos@[i]).pci_dev@ != dev@,
            decreases self.infos@.len() - k,
        {
            k = k + 1;
        }
        k
    }

    /// The device `dev`.
    pub fn device_info(&self, dev: &String) -> (r: Option<&QmDrmDeviceInfo>)
        ensures
            match r {
                Some(d) => exists|i: int| 0 <= i < self.infos@.len() && d == &self.infos@[i] && d.pci_dev@ == dev@,
                None => forall|i: int| 0 <= i < self.infos@.len() ==> (#[trigger] self.infos@[i]).pci_dev@ != dev@,
            },
    {
        let k = self.dev_pos(dev.as_str());
        if k < self.infos.len() {
            Some(&self.infos[k])
        } else {
            None
        }
    }

    /// The PCI slots of the devices, in ascending order.
    pub fn devices(&self) -> (r: Vec<String>)
        ensures
            r@.map_values(|s: String| s@).to_multiset() == dev_keys(self.infos@).to_multiset(),
            lex_sorted(r@.map_values(|s: String| s@)),
            self.wf() ==> lex_strictly_sorted(r@.map_values(|s: String| s@)),
            r@.len() == self.infos@.len(),
    {
        let ghost ds = dev_keys(self.infos@);
        let mut names: Vec<String> = Vec::new();
        let mut k: usize = 0;
        while k < self.infos.len()
            invariant
                k <= self.infos@.len(),
                ds == dev_keys(self.infos@),
                names@.map_values(|s: String| s@) == ds.take(k as int),
            decreases self.infos@.len() - k,
        {
            let ghost before = names@;
            let x = self.infos[k].pci_dev.clone();
            names.push(x);
            proof {
                assert(names@ == before.push(x));
                assert(names@.map_values(|s: String| s@) =~= before.map_values(|s: String| s@).push(x@));
                assert(ds.take(k + 1) =~= ds.take(k as int).push(ds[k as int]));
            }
            k = k + 1;
        }
        assert(ds.take(k as int) =~= ds);
        let r = sort_strings(names);
        proof {
            r@.map_values(|s: String| s@).to_multiset_ensures();
            ds.to_multiset_ensures();
            if self.wf() {
                assert forall|i: int, j: int| 0 <= i < ds.len() && 0 <= j < ds.len() && i != j implies ds[i]
                    != ds[j] by {
                    if i < j {
                        assert(self.infos@[i].pci_dev@ != self.infos@[j].pci_dev@);
                    } else {
                        assert(self.infos@[j].pci_dev@ != self.infos@[i].pci_dev@);
                    }
                }
                lemma_sorted_distinct_strict(r@.map_values(|s: String| s@), ds);
            }
        }
        r
    }

    pub fn is_empty(&self) -> (r: bool)
        ensures
            r == (self.infos@.len() == 0),
    {
        self.infos.len() == 0
    }

    /// Watches the clients of the process tree of `at_pid` (of all
    /// processes when it is empty).
    pub fn clients_pid_tree(&mut self, at_pid: &str)
        requires
            old(self).wf(),
        ensures
            final(self).wf(),
            final(self).infos == old(self).infos,
            final(self).qmclis matches Some(c) && c.base_pid@ == at_pid@ && c.infos@.len() == 0,
    {
        self.qmclis = Some(QmDrmClients::from_pid_tree(at_pid));
    }

    /// Records the device node `devnode` (device number `devnum`) of the
    /// device in PCI slot `sysname`, whose udev `PCI_ID` is `pciid`: a device
    /// without one is ignored; a device seen for the first time is added with
    /// the vendor and device ids of its `PCI_ID`, its names, its revision
    /// without `0x` and its driver, and gets its driver on its first node.
    /// Returns whether the node was recorded.
    pub fn add_device_node(
        &mut self,
        sysname: String,
        pciid: Option<&str>,
        vendor: String,
        device: String,
        revision: &str,
        drv_name: String,
        devnode: String,
        devnum: u64,
    ) -> (r: Result<bool, DeviceError>)
        requires
            old(self).wf(),
            pciid matches Some(p) ==> p@.len() >= 9,
        ensures
            final(self).wf(),
            final(self).qmclis == old(self).qmclis,
            dev_keys(final(self).infos@).to_set() == if pciid is Some && spec_dev_major(devnum) == 226 {
                dev_keys(old(self).infos@).to_set().insert(sysname@)
            } else {
                dev_keys(old(self).infos@).to_set()
            },
            r == if pciid is None {
                Ok::<bool, DeviceError>(false)
            } else if spec_dev_major(devnum) != 226 {
                Err::<bool, DeviceError>(DeviceError::NotDrmMajor)
            } else {
                Ok::<bool, DeviceError>(true)
            },
            r != Ok::<bool, DeviceError>(true) ==> final(self).infos@ == old(self).infos@,
            r == Ok::<bool, DeviceError>(true) ==> ({
                let known = exists|i: int|
                    0 <= i < old(self).infos@.len() && (#[trigger] old(self).infos@[i]).pci_dev@ == sysname@;
                &&& known ==> final(self).infos@.len() == old(self).infos@.len() && forall|i: int|
                    0 <= i < old(self).infos@.len() ==> if (#[trigger] old(self).infos@[i]).pci_dev@ == sysname@ {
                        &&& final(self).infos@[i].drm_minors@.drop_last() == old(self).infos@[i].drm_minors@
                        &&& final(self).infos@[i].drm_minors@.len() > 0
                        &&& final(self).infos@[i].drm_minors@.last().is_node(devnode@, devnum)
                        &&& (QmDrmDeviceInfo { drm_minors: final(self).infos@[i].drm_minors, ..old(self).infos@[i] })
                            == final(self).infos@[i]
                    } else {
                        final(self).infos@[i] == old(self).infos@[i]
                    }
                &&& !known ==> final(self).infos@.len() == old(self).infos@.len() + 1
                    && final(self).infos@.take(old(self).infos@.len() as int) == old(self).infos@
                    && added_device(final(self).infos@.last(), sysname@, pciid->0@, vendor@, device@, revision@, drv_name@)
                    && final(self).infos@.last().drm_minors@.len() == 1
                    && final(self).infos@.last().drm_minors@[0].is_node(devnode@, devnum)
            }),
    {
        let pciid = match pciid {
            None => {
                return Ok(false);
            },
            Some(p) => p,
        };
        let minf = QmDrmMinorInfo::from(&devnode, devnum)?;
        let ghost a = self.infos@;
        let mut k = self.dev_pos(sysname.as_str());
        if k == self.infos.len() {
            let (vendor_id, device_id) = pci_ids(pciid);
            let mut dinf = QmDrmDeviceInfo {
                pci_dev: sysname,
                dev_type: QmDrmDeviceType::Unknown,
                freqs: QmDrmDeviceFreqs::new(),
                mem_info: QmDrmDeviceMemInfo::new(),
                vendor_id,
                vendor,
                device_id,
                device,
                revision: revision_of(revision),
                drv_name,
                drm_minors: Vec::new(),
                driver: None,
            };
            dinf.driver = driver_from(&dinf);
            self.infos.push(dinf);
            proof {
                let b = self.infos@;
                assert(dev_keys(b) =~= dev_keys(a).push(b[k as int].pci_dev@));
                dev_keys(a).lemma_push_to_set_commute(b[k as int].pci_dev@);
                assert forall|i: int, j: int| 0 <= i < j < b.len() implies (#[trigger] b[i]).pci_dev@ != (#[trigger] b[j]).pci_dev@ by {
                    if j < a.len() {
                        assert(b[i] == a[i] && b[j] == a[j]);
                    } else {
                        assert(b[i] == a[i]);
                    }
                }
            }
        } else {
            proof {
                assert(dev_keys(a)[k as int] == sysname@);
                assert(dev_keys(a).to_set().contains(sysname@));
                assert(dev_keys(a).to_set().insert(sysname@) =~= dev_keys(a).to_set());
            }
        }
        let ghost b0 = self.infos@;
        let mut dinf = self.infos.remove(k);
        dinf.drm_minors.push(minf);
        self.infos.insert(k, dinf);
        proof {
            let b = self.infos@;
            assert(dev_keys(b) =~= dev_keys(b0));
            assert forall|i: int, j: int| 0 <= i < j < b.len() implies (#[trigger] b[i]).pci_dev@ != (#[trigger] b[j]).pci_dev@ by {
                assert(b[i].pci_dev@ == b0[i].pci_dev@);
                assert(b[j].pci_dev@ == b0[j].pci_dev@);
            }
        }
        Ok(true)
    }

    /// Takes the devices' current figures, `samples[i]` for device `i` (used
    /// only when it has a driver), then, when clients are watched, rebuilds
    /// the client table from the scan `scans` and lets each device's driver
    /// report its clients' memory.
    pub fn refresh(&mut self, samples: Vec<(QmDrmDeviceFreqs, QmDrmDeviceMemInfo)>, scans: Vec<QmProcScan>)
        requires
            old(self).wf(),
            samples@.len() == old(self).infos@.len(),
        ensures
            final(self).wf(),
            dev_keys(final(self).infos@) == dev_keys(old(self).infos@),
            final(self).infos@.len() == old(self).infos@.len(),
            forall|i: int|
                0 <= i < old(self).infos@.len() ==> #[trigger] final(self).infos@[i] == old(self).infos@[i].refreshed(
                    samples@[i].0,
                    samples@[i].1,
                ),
            old(self).qmclis is None ==> final(self).qmclis is None,
            old(self).qmclis is Some ==> (final(self).qmclis matches Some(c) && forall|dv: Seq<char>, m: u32, i: u32|
                #![trigger lookup(c.infos@, dv, m, i)]
                lookup(c.infos@, dv, m, i) is Some <==> exists|s: int, j: int|
                    0 <= s < scans@.len() && 0 <= j < scans@[s].fdinfos@.len()
                        && crate::qmdrmclients::fdi_key(#[trigger] scans@[s].fdinfos@[j]) == (dv, m, i)),
            old(self).qmclis matches Some(oc) ==> (final(self).qmclis matches Some(c) && forall|dv: Seq<char>, m: u32, i: u32|
                #![trigger lookup(c.infos@, dv, m, i)]
                lookup(c.infos@, dv, m, i) matches Some(cl) ==> ({
                    let t = qm_tracked_client(
                        lookup(oc.infos@, dv, m, i),
                        qm_scan_entries(scans@).filter(qm_has_key((dv, m, i))),
                    );
                    cl.model() == (QmClientModel { driver: qm_client_driver(final(self).infos@, dv, t.driver), ..t })
                })),
    {
        let ghost a = self.infos@;
        let mut k: usize = 0;
        while k < self.infos.len()
            invariant
                k <= self.infos@.len() == a.len() == samples@.len(),
                dev_keys(self.infos@) == dev_keys(a),
                self.qmclis == old(self).qmclis,
                forall|i: int|
                    0 <= i < a.len() ==> #[trigger] self.infos@[i] == if i < k {
                        a[i].refreshed(samples@[i].0, samples@[i].1)
                    } else {
                        a[i]
                    },
            decreases a.len() - k,
        {
            let (f, m) = samples[k];
            let ghost before = self.infos@;
            let mut dinf = self.infos.remove(k);
            dinf.refresh(f, m);
            self.infos.insert(k, dinf);
            proof {
                let b = self.infos@;
                assert(dev_keys(b) =~= dev_keys(before));
                assert forall|i: int| 0 <= i < a.len() && i != k implies b[i] == before[i] by {}
            }
            k = k + 1;
        }
        proof {
            let b = self.infos@;
            assert forall|i: int, j: int| 0 <= i < j < b.len() implies (#[trigger] b[i]).pci_dev@ != (#[trigger] b[j]).pci_dev@ by {
                assert(dev_keys(b)[i] == dev_keys(a)[i]);
                assert(dev_keys(b)[j] == dev_keys(a)[j]);
            }
        }
        let mut clis_opt = self.qmclis.take();
        match clis_opt {
            None => {},
            Some(mut clis) => {
                clis.refresh(scans);
                let ghost t0 = clis.infos@;
                let ghost devs = self.infos@;
                proof {
                    assert forall|dv: Seq<char>, m: u32, i: u32|
                        #![trigger lookup(clis.infos@, dv, m, i)]
                        match lookup(t0, dv, m, i) {
                            Some(c0) => lookup(clis.infos@, dv, m, i) matches Some(c) && c.model() == (QmClientModel {
                                driver: qm_client_driver(devs.take(0), dv, c0.model().driver),
                                ..c0.model()
                            }),
                            None => lookup(clis.infos@, dv, m, i) is None,
                        } by {
                        assert(devs.take(0).len() == 0);
                    }
                }
                let mut j: usize = 0;
                while j < self.infos.len()
                    invariant
                        j <= self.infos@.len(),
                        self.infos@ == devs,
                        clis.wf(),
                        forall|dv: Seq<char>, m: u32, i: u32|
                            #![trigger lookup(clis.infos@, dv, m, i)]
                            lookup(clis.infos@, dv, m, i) is Some <==> exists|s: int, q: int|
                                0 <= s < scans@.len() && 0 <= q < scans@[s].fdinfos@.len()
                                    && crate::qmdrmclients::fdi_key(#[trigger] scans@[s].fdinfos@[q]) == (dv, m, i),
                        forall|dv: Seq<char>, m: u32, i: u32|
                            #![trigger lookup(clis.infos@, dv, m, i)]
                            match lookup(t0, dv, m, i) {
                                Some(c0) => lookup(clis.infos@, dv, m, i) matches Some(c) && c.model() == (QmClientModel {
                                    driver: qm_client_driver(devs.take(j as int), dv, c0.model().driver),
                                    ..c0.model()
                                }),
                                None => lookup(clis.infos@, dv, m, i) is None,
                            },
                    decreases self.infos@.len() - j,
                {
                    let ghost tj = clis.infos@;
                    proof {
                        assert(devs.take(j + 1).drop_last() =~= devs.take(j as int));
                        assert(devs.take(j + 1).last() == devs[j as int]);
                    }
                    match self.infos[j].driver {
                        Some(drv) => {
                            let md = drv.mem_driver(self.infos[j].dev_type);
                            clis.set_dev_clients_driver(&self.infos[j].pci_dev, md);
                            proof {
                                assert forall|dv: Seq<char>, m: u32, i: u32|
                                    #![trigger lookup(clis.infos@, dv, m, i)]
                                    match lookup(t0, dv, m, i) {
                                        Some(c0) => lookup(clis.infos@, dv, m, i) matches Some(c) && c.model() == (QmClientModel {
                                            driver: qm_client_driver(devs.take(j + 1), dv, c0.model().driver),
                                            ..c0.model()
                                        }),
                                        None => lookup(clis.infos@, dv, m, i) is None,
                                    } by {
                                    assert(match lookup(t0, dv, m, i) {
                                        Some(c0) => lookup(tj, dv, m, i) matches Some(c) && c.model() == (QmClientModel {
                                            driver: qm_client_driver(devs.take(j as int), dv, c0.model().driver),
                                            ..c0.model()
                                        }),
                                        None => lookup(tj, dv, m, i) is None,
                                    });
                                }
                            }
                        },
                        None => {},
                    }
                    j = j + 1;
                }
                proof {
                    assert(devs.take(j as int) =~= devs);
                }
                self.qmclis = Some(clis);
            },
        }
    }
}

} // verus!
