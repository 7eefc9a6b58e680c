//! DRM fdinfo for the first-generation client tracking: the same counters
//! as [`crate::fdinfo`], attributed to the device they were read for.
use vstd::prelude::*;

use crate::devnum::{spec_dev_minor, spec_is_drm_char_dev};
use crate::fdinfo::{
    default_engine, default_region, lemma_parsed_names_unique, model_wf, spec_mul_from_unit,
    spec_parse_fdinfo, DrmEngine, DrmFdinfo, DrmMemRegion, EngineModel, FdinfoError, FdinfoModel, RegionModel,
};
use crate::qmdevice::QmDevice;

verus! {

/// Counters of one engine in a DRM client's fdinfo.
#[derive(Debug)]
pub struct QmDrmEngine {
    pub name: String,
    pub capacity: u32,
    pub time: u64,
    pub cycles: u64,
    pub total_cycles: u64,
}

impl View for QmDrmEngine {
    type V = EngineModel;

    open spec fn view(&self) -> EngineModel {
        EngineModel {
            name: self.name@,
            capacity: self.capacity,
            time: self.time,
            cycles: self.cycles,
            total_cycles: self.total_cycles,
        }
    }
}

impl QmDrmEngine {
    /// A new engine named `eng_name`: capacity 1, all counters 0.
    pub fn new(eng_name: &str) -> (e: QmDrmEngine)
        ensures
            e@ == default_engine(eng_name@),
    {
        QmDrmEngine {
            name: String::from_str(eng_name),
            capacity: 1,
            time: 0,
            cycles: 0,
            total_cycles: 0,
        }
    }
}

/// Sizes of one memory region in a DRM client's fdinfo, in bytes.
#[derive(Debug)]
pub struct QmDrmMemRegion {
    pub name: String,
    pub total: u64,
    pub shared: u64,
    pub resident: u64,
    pub purgeable: u64,
    pub active: u64,
}

impl View for QmDrmMemRegion {
    type V = RegionModel;

    open spec fn view(&self) -> RegionModel {
        RegionModel {
            name: self.name@,
            total: self.total,
            shared: self.shared,
            resident: self.resident,
            purgeable: self.purgeable,
            active: self.active,
        }
    }
}

impl QmDrmMemRegion {
    /// A new region named `memreg_name`, all sizes 0.
    pub fn new(memreg_name: &str) -> (r: QmDrmMemRegion)
        ensures
            r@ == default_region(memreg_name@),
    {
        QmDrmMemRegion {
            name: String::from_str(memreg_name),
            total: 0,
            shared: 0,
            resident: 0,
            purgeable: 0,
            active: 0,
        }
    }
}

/// The parsed fdinfo of one DRM client.
#[derive(Debug)]
pub struct QmDrmFdinfo {
    pub pci_dev: String,
    pub drm_minor: u32,
    pub client_id: u32,
    pub path: String,
    pub engines: Vec<QmDrmEngine>,
    pub mem_regions: Vec<QmDrmMemRegion>,
    /// Monotonic time (ms) at which the fdinfo was read.
    pub time_sampled: u64,
}

impl QmDrmFdinfo {
    /// Engine names are distinct, and so are memory region names.
    pub open spec fn wf(&self) -> bool {
        model_wf(self.model())
    }

    pub open spec fn model(&self) -> FdinfoModel {
        FdinfoModel {
            pci_dev: self.pci_dev@,
            client_id: self.client_id,
            engines: self.engines@.map_values(|e: QmDrmEngine| e@),
            mem_regions: self.mem_regions@.map_values(|r: QmDrmMemRegion| r@),
        }
    }

    /// Whether a file of mode `st_mode` and device number `st_rdev` is a DRM
    /// character device; if so its minor number is stored in `minor`.
    pub fn is_drm_fd(st_mode: u32, st_rdev: u64, minor: &mut u32) -> (r: bool)
        ensures
            r == spec_is_drm_char_dev(st_mode, st_rdev),
            *final(minor) == (if r {
                spec_dev_minor(st_rdev)
            } else {
                *old(minor)
            }),
    {
        DrmFdinfo::is_drm_fd(st_mode, st_rdev, minor)
    }

    /// Bytes per unit of a memory amount's unit suffix.
    pub fn mul_from_unit(unit: &str) -> (r: u64)
        ensures
            r == spec_mul_from_unit(unit@),
    {
        crate::fdinfo::mul_from_unit(unit)
    }

    /// The same fdinfo in this form.
    pub fn from_fdinfo(f: DrmFdinfo) -> (r: QmDrmFdinfo)
        ensures
            r.model() == f.model(),
            r.pci_dev == f.pci_dev,
            r.drm_minor == f.drm_minor,
            r.path == f.path,
            r.time_sampled == f.time_sampled,
    {
        let ghost fm = f.model();
        let mut engines: Vec<QmDrmEngine> = Vec::new();
        let mut k: usize = 0;
        while k < f.engines.len()
            invariant
                k <= f.engines@.len(),
                fm == f.model(),
                engines@.map_values(|e: QmDrmEngine| e@) == fm.engines.take(k as int),
            decreases f.engines@.len() - k,
        {
            let e: &DrmEngine = &f.engines[k];
            let q = QmDrmEngine {
                name: e.name.clone(),
                capacity: e.capacity,
                time: e.time,
                cycles: e.cycles,
                total_cycles: e.total_cycles,
            };
            let ghost before = engines@;
            engines.push(q);
            assert(engines@.map_values(|e: QmDrmEngine| e@) =~= before.map_values(
                |e: QmDrmEngine| e@,
            ).push(q@));
            assert(fm.engines.take(k + 1) =~= fm.engines.take(k as int).push(fm.engines[k as int]));
            k = k + 1;
        }
        let mut regions: Vec<QmDrmMemRegion> = Vec::new();
        let mut j: usize = 0;
        while j < f.mem_regions.len()
            invariant
                j <= f.mem_regions@.len(),
                fm == f.model(),
                regions@.map_values(|r: QmDrmMemRegion| r@) == fm.mem_regions.take(j as int),
            decreases f.mem_regions@.len() - j,
        {
            let m: &DrmMemRegion = &f.mem_regions[j];
            let q = QmDrmMemRegion {
                name: m.name.clone(),
                total: m.total,
                shared: m.shared,
                resident: m.resident,
                purgeable: m.purgeable,
                active: m.active,
            };
            let ghost before = regions@;
            regions.push(q);
            assert(regions@.map_values(|r: QmDrmMemRegion| r@) =~= before.map_values(
                |r: QmDrmMemRegion| r@,
            ).push(q@));
            assert(fm.mem_regions.take(j + 1) =~= fm.mem_regions.take(j as int).push(
                fm.mem_regions[j as int],
            ));
            j = j + 1;
        }
        assert(fm.engines.take(k as int) =~= fm.engines);
        assert(fm.mem_regions.take(j as int) =~= fm.mem_regions);
        QmDrmFdinfo {
            pci_dev: f.pci_dev,
            drm_minor: f.drm_minor,
            client_id: f.client_id,
            path: f.path,
            engines,
            mem_regions: regions,
            time_sampled: f.time_sampled,
        }
    }

    /// Parses the text of a DRM fdinfo file read from `path` for the DRM
    /// minor `d_minor` at time `time_sampled` (ms).
    pub fn from(content: &str, path: String, d_minor: u32, time_sampled: u64) -> (r: Result<
        QmDrmFdinfo,
        FdinfoError,
    >)
        ensures
            match spec_parse_fdinfo(content@) {
                Ok(m) => r matches Ok(info) && info.model() == m && info.path == path
                    && info.drm_minor == d_minor && info.time_sampled == time_sampled
                    && info.wf(),
                Err(e) => r == Err::<QmDrmFdinfo, FdinfoError>(e),
            },
    {
        match DrmFdinfo::from(content, path, d_minor, time_sampled) {
            Ok(f) => Ok(Self::from_fdinfo(f)),
            Err(e) => Err(e),
        }
    }

    /// Parses the text of the fdinfo file `path` of a client of the device
    /// `qmd`, read at time `time_sampled` (ms): the client is attributed to
    /// the device's PCI slot and DRM minor, whatever the text says.
    pub fn from_drm_fdinfo(content: &str, path: String, qmd: &QmDevice, time_sampled: u64) -> (r:
        Result<QmDrmFdinfo, FdinfoError>)
        ensures
            match spec_parse_fdinfo(content@) {
                Ok(m) => r matches Ok(info) && info.model() == (FdinfoModel {
                    pci_dev: qmd.sysname@,
                    ..m
                }) && info.path == path && info.drm_minor == qmd.devnum.1 && info.time_sampled
                    == time_sampled && info.wf(),
                Err(e) => r == Err::<QmDrmFdinfo, FdinfoError>(e),
            },
    {
        let mut info = Self::from(content, path, qmd.minor(), time_sampled)?;
        info.pci_dev = qmd.sysname.clone();
        proof {
            lemma_parsed_names_unique(content@);
        }
        Ok(info)
    }
}

} // verus!
