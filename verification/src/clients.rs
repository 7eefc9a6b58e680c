//! DRM clients: the engine and memory accounting of each client across the
//! samples of its fdinfo, and the table of clients by device.
use vstd::prelude::*;

use crate::fdinfo::{
    lemma_reg_index_from, model_wf, reg_index, DrmEngine, DrmFdinfo, DrmMemRegion, EngineModel, RegionModel,
};
use crate::procinfo::{fdinfo_sample_of, FdinfoSample, ProcInfo, ProcModel};
use crate::text::{
    chars_of, is_prefix, lemma_sorted_distinct_strict, lex_sorted, lex_strictly_sorted, sort_strings,
    starts_with_lit,
};

verus! {

/// Sum of the engine counters of the engines that moved since the previous
/// sample.
#[derive(Debug, Clone, Copy, PartialEq, Eq, Structural)]
pub struct DrmEnginesAcum {
    pub acum_time: u64,
    pub acum_cycles: u64,
    pub acum_total_cycles: u64,
}

impl DrmEnginesAcum {
    pub fn new() -> (r: DrmEnginesAcum)
        ensures
            r == (DrmEnginesAcum { acum_time: 0, acum_cycles: 0, acum_total_cycles: 0 }),
    {
        DrmEnginesAcum { acum_time: 0, acum_cycles: 0, acum_total_cycles: 0 }
    }
}

/// How much each counter of an engine moved between two samples.
#[derive(Debug, Clone, Copy, PartialEq, Eq, Structural)]
pub struct DrmEngineDelta {
    pub delta_time: u64,
    pub delta_cycles: u64,
    pub delta_total_cycles: u64,
}

impl DrmEngineDelta {
    pub fn new() -> (r: DrmEngineDelta)
        ensures
            r == (DrmEngineDelta { delta_time: 0, delta_cycles: 0, delta_total_cycles: 0 }),
    {
        DrmEngineDelta { delta_time: 0, delta_cycles: 0, delta_total_cycles: 0 }
    }
}

/// A client's memory: used and resident bytes in system memory and in VRAM.
#[derive(Debug, Clone, Copy, PartialEq, Eq, Structural)]
pub struct DrmClientMemInfo {
    pub smem_used: u64,
    pub smem_rss: u64,
    pub vram_used: u64,
    pub vram_rss: u64,
}

pub open spec fn zero_mem_info() -> DrmClientMemInfo {
    DrmClientMemInfo { smem_used: 0, smem_rss: 0, vram_used: 0, vram_rss: 0 }
}

impl DrmClientMemInfo {
    pub fn new() -> (r: DrmClientMemInfo)
        ensures
            r == zero_mem_info(),
    {
        DrmClientMemInfo { smem_used: 0, smem_rss: 0, vram_used: 0, vram_rss: 0 }
    }

    /// Adds the figures of `mi` to these.
    pub fn acum(&mut self, mi: &DrmClientMemInfo)
        requires
            old(self).smem_used + mi.smem_used <= u64::MAX,
            old(self).smem_rss + mi.smem_rss <= u64::MAX,
            old(self).vram_used + mi.vram_used <= u64::MAX,
            old(self).vram_rss + mi.vram_rss <= u64::MAX,
        ensures
            final(self).smem_used == old(self).smem_used + mi.smem_used,
            final(self).smem_rss == old(self).smem_rss + mi.smem_rss,
            final(self).vram_used == old(self).vram_used + mi.vram_used,
            final(self).vram_rss == old(self).vram_rss + mi.vram_rss,
    {
        self.smem_used = self.smem_used + mi.smem_used;
        self.smem_rss = self.smem_rss + mi.smem_rss;
        self.vram_used = self.vram_used + mi.vram_used;
        self.vram_rss = self.vram_rss + mi.vram_rss;
    }
}

// ---------------------------------------------------------------------------
// Memory regions by driver
// ---------------------------------------------------------------------------

/// The driver of a client's device, as far as the sorting of its memory
/// regions goes. `Other` stands for a driver that reports no client memory.
#[derive(Debug, Clone, Copy, PartialEq, Eq, Structural)]
pub enum ClientMemDriver {
    Xe { discrete: bool },
    I915,
    Amdgpu,
    Other,
}

/// Where a memory region's bytes are counted.
#[derive(Debug, Clone, Copy, PartialEq, Eq, Structural)]
pub enum MemClass {
    System,
    Vram,
    Skipped,
}

/// How `drv` sorts the region named `name`, by the start of the name: Xe
/// counts `system` and `gtt` as system memory, `vram` as VRAM and `stolen`
/// as VRAM on a discrete device; i915 counts `system` and `stolen-system` as
/// system memory, `local` and `stolen-local` as VRAM; amdgpu counts `cpu` and
/// `gtt` as system memory, `vram` as VRAM. Anything else is skipped.
pub open spec fn spec_mem_class(drv: ClientMemDriver, name: Seq<char>) -> MemClass {
    match drv {
        ClientMemDriver::Xe { discrete } => if is_prefix("system"@, name) || is_prefix(
            "gtt"@,
            name,
        ) {
            MemClass::System
        } else if is_prefix("vram"@, name) {
            MemClass::Vram
        } else if is_prefix("stolen"@, name) {
            if discrete {
                MemClass::Vram
            } else {
                MemClass::System
            }
        } else {
            MemClass::Skipped
        },
        ClientMemDriver::I915 => if is_prefix("system"@, name) || is_prefix(
            "stolen-system"@,
            name,
        ) {
            MemClass::System
        } else if is_prefix("local"@, name) || is_prefix("stolen-local"@, name) {
            MemClass::Vram
        } else {
            MemClass::Skipped
        },
        ClientMemDriver::Amdgpu => if is_prefix("cpu"@, name) || is_prefix("gtt"@, name) {
            MemClass::System
        } else if is_prefix("vram"@, name) {
            MemClass::Vram
        } else {
            MemClass::Skipped
        },
        ClientMemDriver::Other => MemClass::Skipped,
    }
}

proof fn lemma_prefix_char(p: Seq<char>, s: Seq<char>, i: int)
    requires
        is_prefix(p, s),
        0 <= i < p.len(),
    ensures
        s[i] == p[i],
{
    assert(s.take(p.len() as int)[i] == s[i]);
}

/// Where each driver counts a memory region, by the start of its name:
/// - Xe: `system*` and `gtt*` in system memory, `vram*` in VRAM, `stolen*`
///   in VRAM on a discrete card and in system memory otherwise;
/// - i915: `system*` and `stolen-system*` in system memory, `local*` and
///   `stolen-local*` in VRAM;
/// - amdgpu: `cpu*` and `gtt*` in system memory, `vram*` in VRAM;
/// - other drivers: nowhere.
pub proof fn lemma_mem_class_by_prefix(name: Seq<char>, discrete: bool)
    ensures
        is_prefix("system"@, name) || is_prefix("gtt"@, name) ==> spec_mem_class(
            ClientMemDriver::Xe { discrete },
            name,
        ) == MemClass::System,
        is_prefix("vram"@, name) ==> spec_mem_class(ClientMemDriver::Xe { discrete }, name) == MemClass::Vram,
        is_prefix("stolen"@, name) ==> spec_mem_class(ClientMemDriver::Xe { discrete }, name) == if discrete {
            MemClass::Vram
        } else {
            MemClass::System
        },
        is_prefix("system"@, name) || is_prefix("stolen-system"@, name) ==> spec_mem_class(
            ClientMemDriver::I915,
            name,
        ) == MemClass::System,
        is_prefix("local"@, name) || is_prefix("stolen-local"@, name) ==> spec_mem_class(
            ClientMemDriver::I915,
            name,
        ) == MemClass::Vram,
        is_prefix("cpu"@, name) || is_prefix("gtt"@, name) ==> spec_mem_class(ClientMemDriver::Amdgpu, name)
            == MemClass::System,
        is_prefix("vram"@, name) ==> spec_mem_class(ClientMemDriver::Amdgpu, name) == MemClass::Vram,
        spec_mem_class(ClientMemDriver::Other, name) == MemClass::Skipped,
{
    reveal_strlit("system");
    reveal_strlit("gtt");
    reveal_strlit("vram");
    reveal_strlit("stolen");
    reveal_strlit("stolen-system");
    reveal_strlit("local");
    reveal_strlit("stolen-local");
    reveal_strlit("cpu");
    if is_prefix("vram"@, name) {
        lemma_prefix_char("vram"@, name, 0);
        if is_prefix("system"@, name) {
            lemma_prefix_char("system"@, name, 0);
        }
        if is_prefix("gtt"@, name) {
            lemma_prefix_char("gtt"@, name, 0);
        }
        if is_prefix("cpu"@, name) {
            lemma_prefix_char("cpu"@, name, 0);
        }
    }
    if is_prefix("stolen"@, name) {
        lemma_prefix_char("stolen"@, name, 0);
        lemma_prefix_char("stolen"@, name, 1);
        if is_prefix("system"@, name) {
            lemma_prefix_char("system"@, name, 1);
        }
        if is_prefix("gtt"@, name) {
            lemma_prefix_char("gtt"@, name, 0);
        }
        if is_prefix("vram"@, name) {
            lemma_prefix_char("vram"@, name, 0);
        }
    }
    if is_prefix("local"@, name) || is_prefix("stolen-local"@, name) {
        if is_prefix("local"@, name) {
            lemma_prefix_char("local"@, name, 0);
        } else {
            lemma_prefix_char("stolen-local"@, name, 0);
            lemma_prefix_char("stolen-local"@, name, 1);
            lemma_prefix_char("stolen-local"@, name, 7);
        }
        if is_prefix("system"@, name) {
            lemma_prefix_char("system"@, name, 0);
            lemma_prefix_char("system"@, name, 1);
        }
        if is_prefix("stolen-system"@, name) {
            lemma_prefix_char("stolen-system"@, name, 0);
            lemma_prefix_char("stolen-system"@, name, 7);
        }
    }
}

/// Where `drv` counts the memory region named `name`.
pub fn mem_class(drv: ClientMemDriver, name: &str) -> (r: MemClass)
    ensures
        r == spec_mem_class(drv, name@),
{
    let v = chars_of(name);
    let n = v.len();
    assert(v@.subrange(0, n as int) =~= v@);
    match drv {
        ClientMemDriver::Xe { discrete } => {
            if starts_with_lit(&v, 0, n, "system") || starts_with_lit(&v, 0, n, "gtt") {
                MemClass::System
            } else if starts_with_lit(&v, 0, n, "vram") {
                MemClass::Vram
            } else if starts_with_lit(&v, 0, n, "stolen") {
                if discrete {
                    MemClass::Vram
                } else {
                    MemClass::System
                }
            } else {
                MemClass::Skipped
            }
        },
        ClientMemDriver::I915 => {
            if starts_with_lit(&v, 0, n, "system") || starts_with_lit(&v, 0, n, "stolen-system") {
                MemClass::System
            } else if starts_with_lit(&v, 0, n, "local") || starts_with_lit(
                &v,
                0,
                n,
                "stolen-local",
            ) {
                MemClass::Vram
            } else {
                MemClass::Skipped
            }
        },
        ClientMemDriver::Amdgpu => {
            if starts_with_lit(&v, 0, n, "cpu") || starts_with_lit(&v, 0, n, "gtt") {
                MemClass::System
            } else if starts_with_lit(&v, 0, n, "vram") {
                MemClass::Vram
            } else {
                MemClass::Skipped
            }
        },
        ClientMemDriver::Other => MemClass::Skipped,
    }
}

/// Mathematical sums of a client's memory figures.
pub struct MemSums {
    pub smem_used: int,
    pub smem_rss: int,
    pub vram_used: int,
    pub vram_rss: int,
}

/// The sums of the totals and resident sizes of the regions, by where `drv`
/// counts each.
pub open spec fn mem_sums(drv: ClientMemDriver, rs: Seq<RegionModel>) -> MemSums
    decreases rs.len(),
{
    if rs.len() == 0 {
        MemSums { smem_used: 0, smem_rss: 0, vram_used: 0, vram_rss: 0 }
    } else {
        let s = mem_sums(drv, rs.drop_last());
        let r = rs.last();
        match spec_mem_class(drv, r.name) {
            MemClass::System => MemSums {
                smem_used: s.smem_used + r.total,
                smem_rss: s.smem_rss + r.resident,
                ..s
            },
            MemClass::Vram => MemSums {
                vram_used: s.vram_used + r.total,
                vram_rss: s.vram_rss + r.resident,
                ..s
            },
            MemClass::Skipped => s,
        }
    }
}

/// A region counted in system memory adds its total to the system memory
/// used and its resident size to the system memory resident; one counted in
/// VRAM adds them to the VRAM used and resident; a skipped one adds
/// nothing. Sums over several regions are the sums over each.
pub proof fn lemma_mem_sums_by_region(drv: ClientMemDriver, rs: Seq<RegionModel>, r: RegionModel)
    ensures
        ({
            let a = mem_sums(drv, rs);
            let b = mem_sums(drv, rs.push(r));
            match spec_mem_class(drv, r.name) {
                MemClass::System => b.smem_used == a.smem_used + r.total && b.smem_rss == a.smem_rss
                    + r.resident && b.vram_used == a.vram_used && b.vram_rss == a.vram_rss,
                MemClass::Vram => b.vram_used == a.vram_used + r.total && b.vram_rss == a.vram_rss
                    + r.resident && b.smem_used == a.smem_used && b.smem_rss == a.smem_rss,
                MemClass::Skipped => b == a,
            }
        }),
        mem_sums(drv, Seq::empty()) == (MemSums { smem_used: 0, smem_rss: 0, vram_used: 0, vram_rss: 0 }),
{
    assert(rs.push(r).drop_last() =~= rs);
}

/// All four sums fit in 64 bits.
pub open spec fn mem_sums_fit(drv: ClientMemDriver, rs: Seq<RegionModel>) -> bool {
    let s = mem_sums(drv, rs);
    &&& s.smem_used <= u64::MAX
    &&& s.smem_rss <= u64::MAX
    &&& s.vram_used <= u64::MAX
    &&& s.vram_rss <= u64::MAX
}

pub open spec fn mem_info_is(m: DrmClientMemInfo, s: MemSums) -> bool {
    &&& m.smem_used == s.smem_used
    &&& m.smem_rss == s.smem_rss
    &&& m.vram_used == s.vram_used
    &&& m.vram_rss == s.vram_rss
}

/// The sums over the first `k` memory regions are never negative and never
/// above the sums over all of them.
pub proof fn lemma_mem_sums_prefix(drv: ClientMemDriver, rs: Seq<RegionModel>, k: int)
    requires
        0 <= k <= rs.len(),
    ensures
        0 <= mem_sums(drv, rs.take(k)).smem_used <= mem_sums(drv, rs).smem_used,
        0 <= mem_sums(drv, rs.take(k)).smem_rss <= mem_sums(drv, rs).smem_rss,
        0 <= mem_sums(drv, rs.take(k)).vram_used <= mem_sums(drv, rs).vram_used,
        0 <= mem_sums(drv, rs.take(k)).vram_rss <= mem_sums(drv, rs).vram_rss,
    decreases rs.len() - k,
{
    if k == rs.len() {
        assert(rs.take(k) =~= rs);
        lemma_mem_sums_nonneg(drv, rs);
    } else {
        lemma_mem_sums_prefix(drv, rs, k + 1);
        assert(rs.take(k + 1).drop_last() =~= rs.take(k));
        lemma_mem_sums_nonneg(drv, rs.take(k));
    }
}

/// Memory sums are never negative.
pub proof fn lemma_mem_sums_nonneg(drv: ClientMemDriver, rs: Seq<RegionModel>)
    ensures
        mem_sums(drv, rs).smem_used >= 0,
        mem_sums(drv, rs).smem_rss >= 0,
        mem_sums(drv, rs).vram_used >= 0,
        mem_sums(drv, rs).vram_rss >= 0,
    decreases rs.len(),
{
    if rs.len() > 0 {
        lemma_mem_sums_nonneg(drv, rs.drop_last());
    }
}

/// A client's memory as `drv` reports it from the client's memory regions.
pub fn client_mem_info(drv: ClientMemDriver, mem_regs: &Vec<DrmMemRegion>) -> (r: DrmClientMemInfo)
    requires
        mem_sums_fit(drv, mem_regs@.map_values(|m: DrmMemRegion| m@)),
    ensures
        mem_info_is(r, mem_sums(drv, mem_regs@.map_values(|m: DrmMemRegion| m@))),
{
    let ghost rs = mem_regs@.map_values(|m: DrmMemRegion| m@);
    let mut cmi = DrmClientMemInfo::new();
    let mut k: usize = 0;
    assert(rs.take(0) =~= Seq::<RegionModel>::empty());
    while k < mem_regs.len()
        invariant
            k <= mem_regs@.len(),
            rs == mem_regs@.map_values(|m: DrmMemRegion| m@),
            mem_sums_fit(drv, rs),
            mem_info_is(cmi, mem_sums(drv, rs.take(k as int))),
        decreases mem_regs@.len() - k,
    {
        let mr = &mem_regs[k];
        proof {
            assert(rs.take(k + 1).drop_last() =~= rs.take(k as int));
            assert(rs.take(k + 1).last() == mr@);
            lemma_mem_sums_prefix(drv, rs, k + 1);
        }
        match mem_class(drv, mr.name.as_str()) {
            MemClass::System => {
                cmi.smem_used = cmi.smem_used + mr.total;
                cmi.smem_rss = cmi.smem_rss + mr.resident;
            },
            MemClass::Vram => {
                cmi.vram_used = cmi.vram_used + mr.total;
                cmi.vram_rss = cmi.vram_rss + mr.resident;
            },
            MemClass::Skipped => {},
        }
        k = k + 1;
    }
    assert(rs.take(k as int) =~= rs);
    cmi
}

/// Whether a client's memory, as `drv` reports it from the client's memory
/// regions, fits in 64 bits.
pub fn client_mem_fits(drv: ClientMemDriver, mem_regs: &Vec<DrmMemRegion>) -> (r: bool)
    ensures
        r == mem_sums_fit(drv, mem_regs@.map_values(|m: DrmMemRegion| m@)),
{
    let ghost rs = mem_regs@.map_values(|m: DrmMemRegion| m@);
    let mut su: u64 = 0;
    let mut sr: u64 = 0;
    let mut vu: u64 = 0;
    let mut vr: u64 = 0;
    let mut k: usize = 0;
    assert(rs.take(0) =~= Seq::<RegionModel>::empty());
    while k < mem_regs.len()
        invariant
            k <= mem_regs@.len(),
            rs == mem_regs@.map_values(|m: DrmMemRegion| m@),
            mem_sums_fit(drv, rs.take(k as int)),
            su == mem_sums(drv, rs.take(k as int)).smem_used,
            sr == mem_sums(drv, rs.take(k as int)).smem_rss,
            vu == mem_sums(drv, rs.take(k as int)).vram_used,
            vr == mem_sums(drv, rs.take(k as int)).vram_rss,
        decreases mem_regs@.len() - k,
    {
        let mr = &mem_regs[k];
        proof {
            assert(rs.take(k + 1).drop_last() =~= rs.take(k as int));
            assert(rs.take(k + 1).last() == mr@);
            lemma_mem_sums_prefix(drv, rs, k + 1);
            lemma_mem_sums_prefix(drv, rs.take(k + 1), k as int);
        }
        match mem_class(drv, mr.name.as_str()) {
            MemClass::System => {
                match (su.checked_add(mr.total), sr.checked_add(mr.resident)) {
                    (Some(a), Some(b)) => {
                        su = a;
                        sr = b;
                    },
                    _ => {
                        proof {
                            lemma_mem_sums_prefix(drv, rs, k + 1);
                        }
                        return false;
                    },
                }
            },
            MemClass::Vram => {
                match (vu.checked_add(mr.total), vr.checked_add(mr.resident)) {
                    (Some(a), Some(b)) => {
                        vu = a;
                        vr = b;
                    },
                    _ => {
                        proof {
                            lemma_mem_sums_prefix(drv, rs, k + 1);
                        }
                        return false;
                    },
                }
            },
            MemClass::Skipped => {},
        }
        k = k + 1;
    }
    assert(rs.take(k as int) =~= rs);
    true
}

// ---------------------------------------------------------------------------
// Engines of a client across samples
// ---------------------------------------------------------------------------

pub open spec fn sat_sub(a: u64, b: u64) -> u64 {
    if a >= b {
        (a - b) as u64
    } else {
        0
    }
}

pub open spec fn sat_inc(a: u64) -> u64 {
    if a < u64::MAX {
        (a + 1) as u64
    } else {
        u64::MAX
    }
}

/// Sum of `xs`, saturating at `u64::MAX`.
pub open spec fn sat_sum(xs: Seq<u64>) -> u64
    decreases xs.len(),
{
    if xs.len() == 0 {
        0
    } else {
        let s = sat_sum(xs.drop_last()) + xs.last();
        if s > u64::MAX {
            u64::MAX
        } else {
            s as u64
        }
    }
}

/// A saturating sum is positive exactly when one of its terms is.
pub proof fn lemma_sat_sum_pos(xs: Seq<u64>)
    ensures
        (sat_sum(xs) > 0) == (exists|i: int| 0 <= i < xs.len() && #[trigger] xs[i] > 0),
    decreases xs.len(),
{
    if xs.len() > 0 {
        lemma_sat_sum_pos(xs.drop_last());
        if sat_sum(xs.drop_last()) > 0 {
            let i = choose|i: int| 0 <= i < xs.drop_last().len() && #[trigger] xs.drop_last()[i] > 0;
            assert(xs[i] > 0);
        }
        if xs.last() > 0 {
            assert(xs[xs.len() - 1] > 0);
        }
        if exists|i: int| 0 <= i < xs.len() && #[trigger] xs[i] > 0 {
            let i = choose|i: int| 0 <= i < xs.len() && #[trigger] xs[i] > 0;
            if i < xs.len() - 1 {
                assert(xs.drop_last()[i] > 0);
            }
        }
    }
}

/// One engine of a client: its last sample, how it moved since the one
/// before, and how many samples it has had.
#[derive(Debug)]
pub struct ClientEngine {
    pub last: DrmEngine,
    pub delta: DrmEngineDelta,
    pub updates: u64,
}

pub struct ClientEngModel {
    pub last: EngineModel,
    pub delta: DrmEngineDelta,
    pub updates: u64,
}

impl View for ClientEngine {
    type V = ClientEngModel;

    open spec fn view(&self) -> ClientEngModel {
        ClientEngModel { last: self.last@, delta: self.delta, updates: self.updates }
    }
}

/// An engine seen for the first time, with the counters it was seen with.
pub open spec fn fresh_engine(n: EngineModel) -> ClientEngModel {
    ClientEngModel {
        last: n,
        delta: DrmEngineDelta { delta_time: 0, delta_cycles: 0, delta_total_cycles: 0 },
        updates: 0,
    }
}

/// An engine after the sample `n`: each counter's delta is taken against the
/// last sample (0 when the counter went back), the counters are replaced,
/// the name and capacity kept, and the number of samples grows by one.
pub open spec fn step_engine(c: ClientEngModel, n: EngineModel) -> ClientEngModel {
    ClientEngModel {
        last: EngineModel {
            time: n.time,
            cycles: n.cycles,
            total_cycles: n.total_cycles,
            ..c.last
        },
        delta: DrmEngineDelta {
            delta_time: sat_sub(n.time, c.last.time),
            delta_cycles: sat_sub(n.cycles, c.last.cycles),
            delta_total_cycles: sat_sub(n.total_cycles, c.last.total_cycles),
        },
        updates: sat_inc(c.updates),
    }
}

/// First index of the engine named `name`, or `es.len()`.
pub open spec fn cli_eng_index_from(es: Seq<ClientEngModel>, name: Seq<char>, i: int) -> int
    decreases es.len() - i,
{
    if i < 0 || i >= es.len() {
        es.len() as int
    } else if es[i].last.name == name {
        i
    } else {
        cli_eng_index_from(es, name, i + 1)
    }
}

pub open spec fn cli_eng_index(es: Seq<ClientEngModel>, name: Seq<char>) -> int {
    cli_eng_index_from(es, name, 0)
}

proof fn lemma_cli_eng_index_from(es: Seq<ClientEngModel>, name: Seq<char>, i: int)
    requires
        0 <= i <= es.len(),
    ensures
        i <= cli_eng_index_from(es, name, i) <= es.len(),
        cli_eng_index_from(es, name, i) < es.len() ==> es[cli_eng_index_from(
            es,
            name,
            i,
        )].last.name == name,
    decreases es.len() - i,
{
    if i < es.len() && es[i].last.name != name {
        lemma_cli_eng_index_from(es, name, i + 1);
    }
}

/// The engines of a client after a sample whose engines are `ns`: exactly the
/// engines of the sample, in its order, each stepped from what the client
/// knew of it (or from its first sight).
pub open spec fn next_engines(es: Seq<ClientEngModel>, ns: Seq<EngineModel>) -> Seq<ClientEngModel> {
    Seq::new(
        ns.len(),
        |i: int|
            {
                let j = cli_eng_index(es, ns[i].name);
                step_engine(
                    if j < es.len() {
                        es[j]
                    } else {
                        fresh_engine(ns[i])
                    },
                    ns[i],
                )
            },
    )
}

/// The names of a client's engines, in the order the client keeps them.
pub open spec fn eng_names(es: Seq<ClientEngModel>) -> Seq<Seq<char>> {
    es.map_values(|e: ClientEngModel| e.last.name)
}

/// After a sample, a client's engines bear the names of the sample's engines,
/// in the sample's order.
pub proof fn lemma_next_engines_names(es: Seq<ClientEngModel>, ns: Seq<EngineModel>)
    ensures
        eng_names(next_engines(es, ns)) == ns.map_values(|n: EngineModel| n.name),
{
    let r = next_engines(es, ns);
    assert forall|i: int| 0 <= i < ns.len() implies #[trigger] r[i].last.name == ns[i].name by {
        lemma_cli_eng_index_from(es, ns[i].name, 0);
    }
    assert(eng_names(r) =~= ns.map_values(|n: EngineModel| n.name));
}

/// A client's engine names stay distinct: after a sample whose engines have
/// distinct names (as every parsed fdinfo has), no two engines of the client
/// share a name, whatever the client held before.
pub proof fn lemma_client_update_names_distinct(c: ClientModel, p: ProcModel, f: FdinfoSample)
    requires
        model_wf(f.model),
    ensures
        eng_names(spec_client_update(c, p, f).engs).no_duplicates(),
{
    let ns = f.model.engines;
    lemma_next_engines_names(c.engs, ns);
    let nm = ns.map_values(|n: EngineModel| n.name);
    assert forall|i: int, j: int| 0 <= i < nm.len() && 0 <= j < nm.len() && i != j implies nm[i]
        != nm[j] by {
        if i < j {
            assert(ns[i].name != ns[j].name);
        } else {
            assert(ns[j].name != ns[i].name);
        }
    }
}

pub open spec fn time_terms(es: Seq<ClientEngModel>) -> Seq<u64> {
    es.map_values(|e: ClientEngModel| if e.delta.delta_time > 0 { e.last.time } else { 0 })
}

pub open spec fn cycles_terms(es: Seq<ClientEngModel>) -> Seq<u64> {
    es.map_values(|e: ClientEngModel| if e.delta.delta_cycles > 0 { e.last.cycles } else { 0 })
}

pub open spec fn total_cycles_terms(es: Seq<ClientEngModel>) -> Seq<u64> {
    es.map_values(
        |e: ClientEngModel|
            if e.delta.delta_total_cycles > 0 {
                e.last.total_cycles
            } else {
                0
            },
    )
}

/// The sums, over the engines whose counter moved, of that counter's new
/// value (saturating at `u64::MAX`).
pub open spec fn acum_of(es: Seq<ClientEngModel>) -> DrmEnginesAcum {
    DrmEnginesAcum {
        acum_time: sat_sum(time_terms(es)),
        acum_cycles: sat_sum(cycles_terms(es)),
        acum_total_cycles: sat_sum(total_cycles_terms(es)),
    }
}

/// What a client's engine utilization is computed from, when it is not 0.
#[derive(Debug, Clone, Copy, PartialEq, Eq, Structural)]
pub enum EngUtilization {
    /// No utilization can be told: 0%.
    Zero,
    /// `delta_cycles * 100 / (delta_total_cycles * capacity)` percent.
    Cycles { delta_cycles: u64, delta_total_cycles: u64, capacity: u32 },
    /// `(delta_time / 1e6) * 100 / (ms_elapsed * capacity)` percent.
    Time { delta_time: u64, ms_elapsed: u64, capacity: u32 },
}

// ---------------------------------------------------------------------------
// One client
// ---------------------------------------------------------------------------

/// A DRM client: one open DRM file description of a process, as its fdinfo
/// tells across samples. Times are in milliseconds of a monotonic clock.
#[derive(Debug)]
pub struct DrmClientInfo {
    pub pci_dev: String,
    pub drm_minor: u32,
    pub client_id: u32,
    pub proc: ProcInfo,
    pub fdinfo_path: String,
    pub shared_fdinfos: Vec<String>,
    pub engs: Vec<ClientEngine>,
    pub engs_acum: DrmEnginesAcum,
    pub mem_regions: Vec<DrmMemRegion>,
    pub nr_updates: u64,
    pub ms_elapsed: u64,
    pub last_update: u64,
    pub driver: Option<ClientMemDriver>,
}

pub struct ClientModel {
    pub pci_dev: Seq<char>,
    pub drm_minor: u32,
    pub client_id: u32,
    pub proc: ProcModel,
    pub fdinfo_path: Seq<char>,
    pub shared_fdinfos: Seq<Seq<char>>,
    pub engs: Seq<ClientEngModel>,
    pub engs_acum: DrmEnginesAcum,
    pub mem_regions: Seq<RegionModel>,
    pub nr_updates: u64,
    pub ms_elapsed: u64,
    pub last_update: u64,
    pub driver: Option<ClientMemDriver>,
}

/// A client after the sample `f` of its fdinfo, read for the process `p`:
/// the engines step as [`next_engines`] says, the sums of the moved counters
/// are taken anew, the memory regions replaced, and the time since the last
/// sample recorded.
pub open spec fn spec_client_update(c: ClientModel, p: ProcModel, f: FdinfoSample) -> ClientModel {
    let engs = next_engines(c.engs, f.model.engines);
    ClientModel {
        proc: p,
        fdinfo_path: f.path,
        engs,
        engs_acum: acum_of(engs),
        mem_regions: f.model.mem_regions,
        nr_updates: sat_inc(c.nr_updates),
        ms_elapsed: sat_sub(f.time_sampled, c.last_update),
        last_update: f.time_sampled,
        ..c
    }
}

/// A client first seen in the sample `f` of its fdinfo, for the process `p`.
pub open spec fn spec_client_from(p: ProcModel, f: FdinfoSample) -> ClientModel {
    spec_client_update(
        ClientModel {
            pci_dev: f.model.pci_dev,
            drm_minor: f.drm_minor,
            client_id: f.model.client_id,
            proc: p,
            fdinfo_path: Seq::empty(),
            shared_fdinfos: Seq::empty(),
            engs: f.model.engines.map_values(|n: EngineModel| fresh_engine(n)),
            engs_acum: DrmEnginesAcum { acum_time: 0, acum_cycles: 0, acum_total_cycles: 0 },
            mem_regions: Seq::empty(),
            nr_updates: 0,
            ms_elapsed: 0,
            last_update: f.time_sampled,
            driver: None,
        },
        p,
        f,
    )
}

/// A client is active when an engine's busy time moved, or both an engine's
/// cycles and total cycles moved, or it holds memory.
pub open spec fn spec_is_active(c: ClientModel) -> bool {
    ||| c.engs_acum.acum_time > 0
    ||| (c.engs_acum.acum_cycles > 0 && c.engs_acum.acum_total_cycles > 0)
    ||| sat_sum(c.mem_regions.map_values(|r: RegionModel| r.total)) > 0
}

/// What the utilization of engine `name` is computed from: nothing unless the
/// engine is known, has had two samples, and some engine's time or cycles
/// moved; from cycles when cycles moved and so did this engine's total
/// cycles; else from busy time when it moved.
pub open spec fn spec_eng_utilization(c: ClientModel, name: Seq<char>) -> EngUtilization {
    let j = cli_eng_index(c.engs, name);
    let acum = c.engs_acum;
    if j >= c.engs.len() {
        EngUtilization::Zero
    } else if c.engs[j].updates < 2 {
        EngUtilization::Zero
    } else if acum.acum_time == 0 && acum.acum_cycles == 0 {
        EngUtilization::Zero
    } else if acum.acum_cycles > 0 && c.engs[j].delta.delta_total_cycles > 0 {
        EngUtilization::Cycles {
            delta_cycles: c.engs[j].delta.delta_cycles,
            delta_total_cycles: c.engs[j].delta.delta_total_cycles,
            capacity: c.engs[j].last.capacity,
        }
    } else if acum.acum_time > 0 {
        EngUtilization::Time {
            delta_time: c.engs[j].delta.delta_time,
            ms_elapsed: c.ms_elapsed,
            capacity: c.engs[j].last.capacity,
        }
    } else {
        EngUtilization::Zero
    }
}

/// An engine's utilization is told from that engine's own figures: the
/// client has an engine of that name, and the utilization carries its last
/// deltas and the capacity it was reported with (and, from busy time, the
/// time since the previous sample). Cycles are used only when total cycles
/// moved; an engine the client does not have, or one seen in fewer than two
/// samples, has no utilization.
pub proof fn lemma_utilization_of_named_engine(c: ClientModel, name: Seq<char>)
    ensures
        (forall|i: int| 0 <= i < c.engs.len() ==> (#[trigger] c.engs[i]).last.name != name)
            ==> spec_eng_utilization(c, name) == EngUtilization::Zero,
        match spec_eng_utilization(c, name) {
            EngUtilization::Zero => true,
            EngUtilization::Cycles { delta_cycles, delta_total_cycles, capacity } => exists|i: int|
                0 <= i < c.engs.len() && (#[trigger] c.engs[i]).last.name == name && c.engs[i].updates >= 2
                    && delta_cycles == c.engs[i].delta.delta_cycles && delta_total_cycles
                    == c.engs[i].delta.delta_total_cycles && delta_total_cycles > 0 && capacity
                    == c.engs[i].last.capacity,
            EngUtilization::Time { delta_time, ms_elapsed, capacity } => exists|i: int|
                0 <= i < c.engs.len() && (#[trigger] c.engs[i]).last.name == name && c.engs[i].updates >= 2
                    && delta_time == c.engs[i].delta.delta_time && ms_elapsed == c.ms_elapsed && capacity
                    == c.engs[i].last.capacity,
        },
{
    lemma_cli_eng_index_from(c.engs, name, 0);
    let j = cli_eng_index(c.engs, name);
    if j >= c.engs.len() {
        assert forall|i: int| 0 <= i < c.engs.len() implies (#[trigger] c.engs[i]).last.name != name by {
            if c.engs[i].last.name == name {
                lemma_cli_eng_index_le(c.engs, name, 0, i);
            }
        }
    } else {
        assert(c.engs[j].last.name == name);
    }
}

proof fn lemma_cli_eng_index_le(es: Seq<ClientEngModel>, name: Seq<char>, i: int, q: int)
    requires
        0 <= i <= q < es.len(),
        es[q].last.name == name,
    ensures
        cli_eng_index_from(es, name, i) <= q,
    decreases q - i,
{
    if es[i].last.name != name {
        lemma_cli_eng_index_le(es, name, i + 1, q);
    }
}

/// What a sample does to each engine of a client, engine by engine: the
/// client's engines are the sample's, and each takes the sample's counters.
/// An engine the client had keeps the capacity it had and counts one more
/// sample; each counter's delta is how far the counter moved forward since
/// the previous sample (0 when it went back). An engine new to the client
/// takes the capacity the sample reports, with deltas 0, and has one sample.
pub proof fn lemma_update_engine_counters(c: ClientModel, p: ProcModel, f: FdinfoSample, i: int)
    requires
        0 <= i < f.model.engines.len(),
    ensures
        ({
            let r = spec_client_update(c, p, f);
            let n = f.model.engines[i];
            &&& r.engs.len() == f.model.engines.len()
            &&& r.engs[i].last.name == n.name
            &&& r.engs[i].last.time == n.time
            &&& r.engs[i].last.cycles == n.cycles
            &&& r.engs[i].last.total_cycles == n.total_cycles
            &&& (exists|j: int|
                0 <= j < c.engs.len() && (#[trigger] c.engs[j]).last.name == n.name && r.engs[i].last.capacity
                    == c.engs[j].last.capacity && r.engs[i].updates == (if c.engs[j].updates
                    == u64::MAX { u64::MAX as int } else { c.engs[j].updates + 1 }) && r.engs[i].delta.delta_time
                    == (if n.time >= c.engs[j].last.time { n.time - c.engs[j].last.time } else { 0 })
                    && r.engs[i].delta.delta_cycles == (if n.cycles >= c.engs[j].last.cycles {
                    n.cycles - c.engs[j].last.cycles
                } else {
                    0
                }) && r.engs[i].delta.delta_total_cycles == (if n.total_cycles
                    >= c.engs[j].last.total_cycles {
                    n.total_cycles - c.engs[j].last.total_cycles
                } else {
                    0
                })) || ((forall|j: int| 0 <= j < c.engs.len() ==> (#[trigger] c.engs[j]).last.name != n.name)
                && r.engs[i].last.capacity == n.capacity && r.engs[i].updates == 1
                && r.engs[i].delta.delta_time == 0 && r.engs[i].delta.delta_cycles == 0
                && r.engs[i].delta.delta_total_cycles == 0)
        }),
{
    let n = f.model.engines[i];
    lemma_cli_eng_index_from(c.engs, n.name, 0);
    let j = cli_eng_index(c.engs, n.name);
    if j >= c.engs.len() {
        assert forall|q: int| 0 <= q < c.engs.len() implies (#[trigger] c.engs[q]).last.name != n.name by {
            if c.engs[q].last.name == n.name {
                lemma_cli_eng_index_le(c.engs, n.name, 0, q);
            }
        }
    } else {
        assert(c.engs[j].last.name == n.name);
    }
}

/// A client first seen in a sample whose engines have distinct names has
/// those engines, each with the capacity and counters that the sample
/// reports for it.
pub proof fn lemma_from_engine_capacity(p: ProcModel, f: FdinfoSample, i: int)
    requires
        model_wf(f.model),
        0 <= i < f.model.engines.len(),
    ensures
        ({
            let r = spec_client_from(p, f);
            let n = f.model.engines[i];
            &&& r.engs.len() == f.model.engines.len()
            &&& r.engs[i].last == n
        }),
{
    let ns = f.model.engines;
    let fresh = ns.map_values(|n: EngineModel| fresh_engine(n));
    let n = ns[i];
    lemma_cli_eng_index_from(fresh, n.name, 0);
    lemma_cli_eng_index_le(fresh, n.name, 0, i);
    let j = cli_eng_index(fresh, n.name);
    assert(fresh[j].last.name == n.name);
    if j != i {
        assert(ns[j].name == ns[i].name);
        if j < i {
            assert(ns[j].name != ns[i].name);
        }
    }
}

/// The memory a client reports: through its driver when it has one, else
/// the `memory` region as system memory.
pub open spec fn spec_client_mem(c: ClientModel) -> MemSums {
    match c.driver {
        Some(d) => mem_sums(d, c.mem_regions),
        None => {
            let j = reg_index(c.mem_regions, "memory"@);
            if j < c.mem_regions.len() {
                MemSums {
                    smem_used: c.mem_regions[j].total as int,
                    smem_rss: c.mem_regions[j].resident as int,
                    vram_used: 0,
                    vram_rss: 0,
                }
            } else {
                MemSums { smem_used: 0, smem_rss: 0, vram_used: 0, vram_rss: 0 }
            }
        },
    }
}

impl DrmClientInfo {
    pub open spec fn model(&self) -> ClientModel {
        ClientModel {
            pci_dev: self.pci_dev@,
            drm_minor: self.drm_minor,
            client_id: self.client_id,
            proc: self.proc@,
            fdinfo_path: self.fdinfo_path@,
            shared_fdinfos: self.shared_fdinfos@.map_values(|s: String| s@),
            engs: self.engs@.map_values(|e: ClientEngine| e@),
            engs_acum: self.engs_acum,
            mem_regions: self.mem_regions@.map_values(|m: DrmMemRegion| m@),
            nr_updates: self.nr_updates,
            ms_elapsed: self.ms_elapsed,
            last_update: self.last_update,
            driver: self.driver,
        }
    }

    /// The memory that the client holds, in system memory and in VRAM.
    pub fn mem_info(&self) -> (r: DrmClientMemInfo)
        requires
            self.driver matches Some(d) ==> mem_sums_fit(d, self.model().mem_regions),
        ensures
            mem_info_is(r, spec_client_mem(self.model())),
    {
        match self.driver {
            Some(d) => client_mem_info(d, &self.mem_regions),
            None => {
                let name = String::from_str("memory");
                proof {
                    reveal_strlit("memory");
                }
                let j = self.find_mem_region(&name);
                let mut cmi = DrmClientMemInfo::new();
                if j < self.mem_regions.len() {
                    cmi.smem_rss = self.mem_regions[j].resident;
                    cmi.smem_used = self.mem_regions[j].total;
                }
                cmi
            },
        }
    }

    /// The memory that the client holds, when its driver's sums fit in 64
    /// bits (`None` otherwise).
    pub fn checked_mem_info(&self) -> (r: Option<DrmClientMemInfo>)
        ensures
            match r {
                Some(m) => mem_info_is(m, spec_client_mem(self.model())),
                None => self.driver matches Some(d) && !mem_sums_fit(d, self.model().mem_regions),
            },
    {
        match self.driver {
            Some(d) => {
                if client_mem_fits(d, &self.mem_regions) {
                    Some(self.mem_info())
                } else {
                    None
                }
            },
            None => Some(self.mem_info()),
        }
    }

    fn find_mem_region(&self, name: &String) -> (r: usize)
        ensures
            r == reg_index(self.model().mem_regions, name@),
    {
        let ghost rs = self.model().mem_regions;
        let mut k: usize = 0;
        while k < self.mem_regions.len()
            invariant
                k <= self.mem_regions@.len(),
                rs == self.model().mem_regions,
                reg_index(rs, name@) == crate::fdinfo::reg_index_from(rs, name@, k as int),
            decreases self.mem_regions@.len() - k,
        {
            assert(rs[k as int] == self.mem_regions@[k as int]@);
            if self.mem_regions[k].name == *name {
                return k;
            }
            k = k + 1;
        }
        k
    }

    /// Index of the engine named `name` (or the number of engines).
    pub fn find_engine(&self, name: &String) -> (r: usize)
        ensures
            r == cli_eng_index(self.model().engs, name@),
    {
        let ghost es = self.model().engs;
        let mut k: usize = 0;
        while k < self.engs.len()
            invariant
                k <= self.engs@.len(),
                es == self.model().engs,
                cli_eng_index(es, name@) == cli_eng_index_from(es, name@, k as int),
            decreases self.engs@.len() - k,
        {
            assert(es[k as int] == self.engs@[k as int]@);
            if self.engs[k].last.name == *name {
                return k;
            }
            k = k + 1;
        }
        k
    }

    /// What the utilization of the engine named `eng` is computed from.
    pub fn eng_utilization(&self, eng: &String) -> (r: EngUtilization)
        ensures
            r == spec_eng_utilization(self.model(), eng@),
    {
        let j = self.find_engine(eng);
        if j >= self.engs.len() {
            return EngUtilization::Zero;
        }
        let e = &self.engs[j];
        assert(self.model().engs[j as int] == e@);
        if e.updates < 2 {
            return EngUtilization::Zero;
        }
        let acum = self.engs_acum;
        if acum.acum_time == 0 && acum.acum_cycles == 0 {
            return EngUtilization::Zero;
        }
        if acum.acum_cycles > 0 && e.delta.delta_total_cycles > 0 {
            EngUtilization::Cycles {
                delta_cycles: e.delta.delta_cycles,
                delta_total_cycles: e.delta.delta_total_cycles,
                capacity: e.last.capacity,
            }
        } else if acum.acum_time > 0 {
            EngUtilization::Time {
                delta_time: e.delta.delta_time,
                ms_elapsed: self.ms_elapsed,
                capacity: e.last.capacity,
            }
        } else {
            EngUtilization::Zero
        }
    }

    /// The names of the client's engines, in ascending order.
    pub fn engines(&self) -> (r: Vec<String>)
        ensures
            r@.map_values(|s: String| s@).to_multiset() == self.model().engs.map_values(
                |e: ClientEngModel| e.last.name,
            ).to_multiset(),
            lex_sorted(r@.map_values(|s: String| s@)),
            eng_names(self.model().engs).no_duplicates() ==> lex_strictly_sorted(
                r@.map_values(|s: String| s@),
            ),
    {
        let ghost es = self.model().engs;
        let mut names: Vec<String> = Vec::new();
        let mut k: usize = 0;
        while k < self.engs.len()
            invariant
                k <= self.engs@.len(),
                es == self.model().engs,
                names@.map_values(|s: String| s@) == es.map_values(
                    |e: ClientEngModel| e.last.name,
                ).take(k as int),
            decreases self.engs@.len() - k,
        {
            let ghost before = names@;
            let x = self.engs[k].last.name.clone();
            assert(es[k as int] == self.engs@[k as int]@);
            names.push(x);
            proof {
                let nm = es.map_values(|e: ClientEngModel| e.last.name);
                assert(names@ == before.push(x));
                assert(names@.map_values(|s: String| s@) =~= before.map_values(|s: String| s@).push(
                    x@,
                ));
                assert(nm.take(k + 1) =~= nm.take(k as int).push(nm[k as int]));
            }
            k = k + 1;
        }
        assert(es.map_values(|e: ClientEngModel| e.last.name).take(k as int) =~= es.map_values(
            |e: ClientEngModel| e.last.name,
        ));
        let r = sort_strings(names);
        proof {
            if eng_names(es).no_duplicates() {
                lemma_sorted_distinct_strict(r@.map_values(|s: String| s@), eng_names(es));
            }
        }
        r
    }

    /// Sum of the totals of the client's memory regions, saturating at
    /// `u64::MAX`.
    pub fn total_mem(&self) -> (r: u64)
        ensures
            r == sat_sum(self.model().mem_regions.map_values(|m: RegionModel| m.total)),
    {
        let ghost ts = self.model().mem_regions.map_values(|m: RegionModel| m.total);
        let mut tot: u64 = 0;
        let mut k: usize = 0;
        assert(ts.take(0) =~= Seq::<u64>::empty());
        while k < self.mem_regions.len()
            invariant
                k <= self.mem_regions@.len(),
                ts == self.model().mem_regions.map_values(|m: RegionModel| m.total),
                tot == sat_sum(ts.take(k as int)),
            decreases self.mem_regions@.len() - k,
        {
            assert(ts.take(k + 1).drop_last() =~= ts.take(k as int));
            assert(ts.take(k + 1).last() == self.mem_regions@[k as int].total);
            tot = tot.saturating_add(self.mem_regions[k].total);
            k = k + 1;
        }
        assert(ts.take(k as int) =~= ts);
        tot
    }

    /// Whether the client did anything since the previous sample or holds
    /// memory.
    pub fn is_active(&self) -> (r: bool)
        ensures
            r == spec_is_active(self.model()),
    {
        let acum = self.engs_acum;
        if acum.acum_time > 0 || (acum.acum_cycles > 0 && acum.acum_total_cycles > 0) {
            return true;
        }
        self.total_mem() > 0
    }

    /// Takes one more sample: the process `pinfo` that holds the client and
    /// the client's fdinfo `fdi`.
    pub fn update(&mut self, pinfo: ProcInfo, fdi: DrmFdinfo)
        ensures
            final(self).model() == spec_client_update(
                old(self).model(),
                pinfo@,
                fdinfo_sample_of(fdi),
            ),
            fdi.wf() ==> eng_names(final(self).model().engs).no_duplicates(),
    {
        self.proc = pinfo;
        self.apply_sample(fdi);
        proof {
            if fdi.wf() {
                lemma_client_update_names_distinct(old(self).model(), pinfo@, fdinfo_sample_of(fdi));
            }
        }
    }

    fn apply_sample(&mut self, fdi: DrmFdinfo)
        ensures
            final(self).model() == spec_client_update(
                old(self).model(),
                old(self).proc@,
                fdinfo_sample_of(fdi),
            ),
    {
        let ghost old_engs = self.model().engs;
        let ghost ns = fdi.model().engines;
        let ghost target = next_engines(old_engs, ns);
        let mut nengs: Vec<ClientEngine> = Vec::new();
        let mut i: usize = 0;
        while i < fdi.engines.len()
            invariant
                i <= fdi.engines@.len(),
                old_engs == self.model().engs,
                ns == fdi.model().engines,
                target == next_engines(old_engs, ns),
                nengs@.map_values(|e: ClientEngine| e@) == target.take(i as int),
            decreases fdi.engines@.len() - i,
        {
            let n = &fdi.engines[i];
            assert(ns[i as int] == n@);
            let j = self.find_engine(&n.name);
            proof {
                lemma_cli_eng_index_from(old_engs, n.name@, 0);
            }
            let (name, capacity, ot, oc, otc, ou) = if j < self.engs.len() {
                let o = &self.engs[j];
                assert(old_engs[j as int] == o@);
                (o.last.name.clone(), o.last.capacity, o.last.time, o.last.cycles, o.last.total_cycles, o.updates)
            } else {
                (n.name.clone(), n.capacity, n.time, n.cycles, n.total_cycles, 0)
            };
            let ce = ClientEngine {
                last: DrmEngine {
                    name,
                    capacity,
                    time: n.time,
                    cycles: n.cycles,
                    total_cycles: n.total_cycles,
                },
                delta: DrmEngineDelta {
                    delta_time: n.time.saturating_sub(ot),
                    delta_cycles: n.cycles.saturating_sub(oc),
                    delta_total_cycles: n.total_cycles.saturating_sub(otc),
                },
                updates: ou.saturating_add(1),
            };
            assert(ce@ == target[i as int]);
            let ghost before = nengs@;
            nengs.push(ce);
            proof {
                assert(nengs@ == before.push(ce));
                assert(nengs@.map_values(|e: ClientEngine| e@) =~= before.map_values(
                    |e: ClientEngine| e@,
                ).push(ce@));
                assert(target.take(i + 1) =~= target.take(i as int).push(target[i as int]));
            }
            i = i + 1;
        }
        assert(target.take(i as int) =~= target);
        let ghost tt = time_terms(target);
        let ghost ct = cycles_terms(target);
        let ghost tct = total_cycles_terms(target);
        let mut acum = DrmEnginesAcum::new();
        let mut k: usize = 0;
        assert(tt.take(0) =~= Seq::<u64>::empty());
        assert(ct.take(0) =~= Seq::<u64>::empty());
        assert(tct.take(0) =~= Seq::<u64>::empty());
        while k < nengs.len()
            invariant
                k <= nengs@.len(),
                nengs@.map_values(|e: ClientEngine| e@) == target,
                tt == time_terms(target),
                ct == cycles_terms(target),
                tct == total_cycles_terms(target),
                acum.acum_time == sat_sum(tt.take(k as int)),
                acum.acum_cycles == sat_sum(ct.take(k as int)),
                acum.acum_total_cycles == sat_sum(tct.take(k as int)),
            decreases nengs@.len() - k,
        {
            let e = &nengs[k];
            assert(target[k as int] == e@);
            assert(tt.take(k + 1).drop_last() =~= tt.take(k as int));
            assert(ct.take(k + 1).drop_last() =~= ct.take(k as int));
            assert(tct.take(k + 1).drop_last() =~= tct.take(k as int));
            if e.delta.delta_time > 0 {
                acum.acum_time = acum.acum_time.saturating_add(e.last.time);
            }
            if e.delta.delta_cycles > 0 {
                acum.acum_cycles = acum.acum_cycles.saturating_add(e.last.cycles);
            }
            if e.delta.delta_total_cycles > 0 {
                acum.acum_total_cycles = acum.acum_total_cycles.saturating_add(
                    e.last.total_cycles,
                );
            }
            k = k + 1;
        }
        assert(tt.take(k as int) =~= tt);
        assert(ct.take(k as int) =~= ct);
        assert(tct.take(k as int) =~= tct);
        let DrmFdinfo { path, mem_regions, time_sampled, .. } = fdi;
        self.fdinfo_path = path;
        self.engs = nengs;
        self.engs_acum = acum;
        self.mem_regions = mem_regions;
        self.nr_updates = self.nr_updates.saturating_add(1);
        self.ms_elapsed = time_sampled.saturating_sub(self.last_update);
        self.last_update = time_sampled;
    }

    /// Lets `drv` report the client's memory.
    pub fn set_driver(&mut self, drv: ClientMemDriver)
        ensures
            final(self).model() == (ClientModel { driver: Some(drv), ..old(self).model() }),
    {
        self.driver = Some(drv);
    }

    /// A client first seen in the fdinfo `fdi` of the process `pinfo`.
    pub fn from(pinfo: ProcInfo, fdi: DrmFdinfo) -> (r: DrmClientInfo)
        ensures
            r.model() == spec_client_from(pinfo@, fdinfo_sample_of(fdi)),
            fdi.wf() ==> eng_names(r.model().engs).no_duplicates(),
    {
        let ghost ns = fdi.model().engines;
        let mut engs: Vec<ClientEngine> = Vec::new();
        let mut i: usize = 0;
        while i < fdi.engines.len()
            invariant
                i <= fdi.engines@.len(),
                ns == fdi.model().engines,
                engs@.map_values(|e: ClientEngine| e@) == ns.map_values(
                    |n: EngineModel| fresh_engine(n),
                ).take(i as int),
            decreases fdi.engines@.len() - i,
        {
            let n = &fdi.engines[i];
            assert(ns[i as int] == n@);
            let ce = ClientEngine {
                last: DrmEngine {
                    name: n.name.clone(),
                    capacity: n.capacity,
                    time: n.time,
                    cycles: n.cycles,
                    total_cycles: n.total_cycles,
                },
                delta: DrmEngineDelta::new(),
                updates: 0,
            };
            let ghost before = engs@;
            engs.push(ce);
            proof {
                let fm = ns.map_values(|n: EngineModel| fresh_engine(n));
                assert(engs@ == before.push(ce));
                assert(engs@.map_values(|e: ClientEngine| e@) =~= before.map_values(
                    |e: ClientEngine| e@,
                ).push(ce@));
                assert(fm.take(i + 1) =~= fm.take(i as int).push(fm[i as int]));
            }
            i = i + 1;
        }
        assert(ns.map_values(|n: EngineModel| fresh_engine(n)).take(i as int) =~= ns.map_values(
            |n: EngineModel| fresh_engine(n),
        ));
        let mut cli = DrmClientInfo {
            pci_dev: fdi.pci_dev.clone(),
            drm_minor: fdi.drm_minor,
            client_id: fdi.client_id,
            proc: pinfo,
            fdinfo_path: String::new(),
            shared_fdinfos: Vec::new(),
            engs,
            engs_acum: DrmEnginesAcum::new(),
            mem_regions: Vec::new(),
            nr_updates: 0,
            ms_elapsed: 0,
            last_update: fdi.time_sampled,
            driver: None,
        };
        assert(cli.model().shared_fdinfos =~= Seq::<Seq<char>>::empty());
        assert(cli.model().mem_regions =~= Seq::<RegionModel>::empty());
        let ghost pre = cli.model();
        cli.apply_sample(fdi);
        proof {
            if fdi.wf() {
                lemma_client_update_names_distinct(pre, pre.proc, fdinfo_sample_of(fdi));
            }
        }
        cli
    }
}

/// A client is active exactly when one of its engines' busy time moved since
/// the previous sample, or both some engine's cycles and some engine's total
/// cycles moved, or one of its memory regions is not empty.
pub proof fn lemma_active_iff_moved(c: ClientModel)
    requires
        c.engs_acum == acum_of(c.engs),
    ensures
        spec_is_active(c) == ((exists|i: int|
            0 <= i < c.engs.len() && (#[trigger] c.engs[i]).delta.delta_time > 0
                && c.engs[i].last.time > 0) || ((exists|i: int|
            0 <= i < c.engs.len() && (#[trigger] c.engs[i]).delta.delta_cycles > 0
                && c.engs[i].last.cycles > 0) && (exists|i: int|
            0 <= i < c.engs.len() && (#[trigger] c.engs[i]).delta.delta_total_cycles > 0
                && c.engs[i].last.total_cycles > 0)) || (exists|i: int|
            0 <= i < c.mem_regions.len() && (#[trigger] c.mem_regions[i]).total > 0)),
{
    let tt = time_terms(c.engs);
    let ct = cycles_terms(c.engs);
    let tct = total_cycles_terms(c.engs);
    let ms = c.mem_regions.map_values(|r: RegionModel| r.total);
    lemma_sat_sum_pos(tt);
    lemma_sat_sum_pos(ct);
    lemma_sat_sum_pos(tct);
    lemma_sat_sum_pos(ms);
    assert forall|i: int| 0 <= i < c.engs.len() implies (tt[i] > 0) == ((
    #[trigger] c.engs[i]).delta.delta_time > 0 && c.engs[i].last.time > 0) by {}
    assert forall|i: int| 0 <= i < c.engs.len() implies (ct[i] > 0) == ((
    #[trigger] c.engs[i]).delta.delta_cycles > 0 && c.engs[i].last.cycles > 0) by {}
    assert forall|i: int| 0 <= i < c.engs.len() implies (tct[i] > 0) == ((
    #[trigger] c.engs[i]).delta.delta_total_cycles > 0 && c.engs[i].last.total_cycles > 0) by {}
    assert forall|i: int| 0 <= i < c.mem_regions.len() implies (ms[i] > 0) == ((
    #[trigger] c.mem_regions[i]).total > 0) by {}
}


// ---------------------------------------------------------------------------
// The clients of all devices
// ---------------------------------------------------------------------------

/// The clients of one device, in ascending order of DRM minor and client id.
#[derive(Debug)]
pub struct DevClients {
    pub dev: String,
    pub clients: Vec<DrmClientInfo>,
}

/// The clients of the processes under watch, by PCI device, and the
/// processes that hold them.
#[derive(Debug)]
pub struct DrmClients {
    /// The pid whose process tree is watched; empty for all processes.
    pub base_pid: String,
    pub infos: Vec<DevClients>,
    pub procs: Vec<ProcInfo>,
}

/// What the caller found of one process in one scan: the process and the DRM
/// fdinfos of its open files.
pub struct ProcScan {
    pub proc: ProcInfo,
    pub fdinfos: Vec<DrmFdinfo>,
}

/// Why a client table could not be made.
#[derive(Debug, Clone, Copy, PartialEq, Eq, Structural)]
pub enum ClientsError {
    InvalidPid,
}

/// Key of a client within its device.
pub open spec fn ckey(c: DrmClientInfo) -> (u32, u32) {
    (c.drm_minor, c.client_id)
}

pub open spec fn ckey_lt(a: (u32, u32), b: (u32, u32)) -> bool {
    a.0 < b.0 || (a.0 == b.0 && a.1 < b.1)
}

pub open spec fn ckeys(cs: Seq<DrmClientInfo>) -> Seq<(u32, u32)> {
    cs.map_values(|c: DrmClientInfo| ckey(c))
}

pub open spec fn dev_names(infos: Seq<DevClients>) -> Seq<Seq<char>> {
    infos.map_values(|d: DevClients| d.dev@)
}

pub open spec fn seq_unique<A>(s: Seq<A>) -> bool {
    forall|i: int, j: int| 0 <= i < j < s.len() ==> s[i] != s[j]
}

/// The clients are in strictly ascending order of key, and belong to `dev`.
pub open spec fn dev_clients_wf(dc: DevClients) -> bool {
    &&& forall|i: int, j: int|
        0 <= i < j < dc.clients@.len() ==> ckey_lt(
            ckey(#[trigger] dc.clients@[i]),
            ckey(#[trigger] dc.clients@[j]),
        )
    &&& forall|i: int| 0 <= i < dc.clients@.len() ==> (#[trigger] dc.clients@[i]).pci_dev@ == dc.dev@
}

/// Devices appear once each, and each device's clients are well ordered.
pub open spec fn infos_wf(infos: Seq<DevClients>) -> bool {
    &&& seq_unique(dev_names(infos))
    &&& forall|i: int| 0 <= i < infos.len() ==> dev_clients_wf(#[trigger] infos[i])
}

/// The client of device `dev` with DRM minor `minor` and id `id`, if any.
pub open spec fn lookup(infos: Seq<DevClients>, dev: Seq<char>, minor: u32, id: u32) -> Option<
    DrmClientInfo,
> {
    match dev_names(infos).index_of_first(dev) {
        Some(d) => match ckeys(infos[d].clients@).index_of_first((minor, id)) {
            Some(c) => Some(infos[d].clients@[c]),
            None => None,
        },
        None => None,
    }
}

/// Two tables with the same devices and, device by device, the same client
/// keys find the same keys.
pub proof fn lemma_lookup_same_keys(a: Seq<DevClients>, b: Seq<DevClients>)
    requires
        dev_names(a) == dev_names(b),
        a.len() == b.len(),
        forall|d: int| 0 <= d < a.len() ==> ckeys((#[trigger] a[d]).clients@) == ckeys(b[d].clients@),
    ensures
        forall|dev: Seq<char>, minor: u32, id: u32|
            #![trigger lookup(b, dev, minor, id)]
            (lookup(a, dev, minor, id) is Some) == (lookup(b, dev, minor, id) is Some),
{
    assert forall|dev: Seq<char>, minor: u32, id: u32|
        #![trigger lookup(b, dev, minor, id)]
        (lookup(a, dev, minor, id) is Some) == (lookup(b, dev, minor, id) is Some) by {
        match dev_names(a).index_of_first(dev) {
            Some(d) => {
                dev_names(a).index_of_first_ensures(dev);
                assert(ckeys(a[d].clients@) == ckeys(b[d].clients@));
            },
            None => {},
        }
    }
}

/// In two tables with the same devices and, device by device, the same
/// client keys, a key is found at the same place.
proof fn lemma_lookup_same_place(a: Seq<DevClients>, b: Seq<DevClients>, dev: Seq<char>, minor: u32, id: u32)
    requires
        dev_names(a) == dev_names(b),
        a.len() == b.len(),
        forall|d: int| 0 <= d < a.len() ==> ckeys((#[trigger] a[d]).clients@) == ckeys(b[d].clients@),
    ensures
        lookup(a, dev, minor, id) is None ==> lookup(b, dev, minor, id) is None,
        lookup(a, dev, minor, id) matches Some(c) ==> (lookup(b, dev, minor, id) matches Some(c2)
            && exists|d: int, q: int|
            0 <= d < a.len() && 0 <= q < a[d].clients@.len() && q < b[d].clients@.len() && a[d].dev@ == dev
                && #[trigger] a[d].clients@[q] == c && b[d].clients@[q] == c2),
{
    dev_names(a).index_of_first_ensures(dev);
    match dev_names(a).index_of_first(dev) {
        Some(d) => {
            assert(dev_names(a)[d] == a[d].dev@);
            assert(ckeys(a[d].clients@) == ckeys(b[d].clients@));
            lemma_key_found(a[d].clients@, (minor, id));
            match ckeys(a[d].clients@).index_of_first((minor, id)) {
                Some(q) => {
                    assert(ckeys(b[d].clients@).len() == b[d].clients@.len());
                },
                None => {},
            }
        },
        None => {},
    }
}

/// The key of a DRM fdinfo in the client table.
pub open spec fn fdi_key(f: DrmFdinfo) -> (Seq<char>, u32, u32) {
    (f.pci_dev@, f.drm_minor, f.client_id)
}

proof fn lemma_index_of_unique<A>(s: Seq<A>, x: A, q: int)
    requires
        seq_unique(s),
        0 <= q < s.len(),
        s[q] == x,
    ensures
        s.index_of_first(x) == Some(q),
{
    s.index_of_first_ensures(x);
    assert(s.contains(x));
    match s.index_of_first(x) {
        Some(i) => {
            if i < q {
                assert(s[i] != s[q]);
            } else if i > q {
                assert(s[q] != x);
            }
        },
        None => {},
    }
}

proof fn lemma_index_of_absent<A>(s: Seq<A>, x: A)
    requires
        forall|i: int| 0 <= i < s.len() ==> s[i] != x,
    ensures
        s.index_of_first(x) is None,
{
    s.index_of_first_ensures(x);
}

proof fn lemma_keys_unique(dc: DevClients)
    requires
        dev_clients_wf(dc),
    ensures
        seq_unique(ckeys(dc.clients@)),
{
    let ks = ckeys(dc.clients@);
    assert forall|i: int, j: int| 0 <= i < j < ks.len() implies ks[i] != ks[j] by {
        assert(ckey_lt(ckey(dc.clients@[i]), ckey(dc.clients@[j])));
    }
}

/// `lookup` on a table whose device names are unique and whose device `d`
/// is named `dev`: what device `d`'s clients hold.
proof fn lemma_lookup_at_dev(infos: Seq<DevClients>, d: int, minor: u32, id: u32)
    requires
        infos_wf(infos),
        0 <= d < infos.len(),
    ensures
        lookup(infos, infos[d].dev@, minor, id) == (match ckeys(infos[d].clients@).index_of_first(
            (minor, id),
        ) {
            Some(c) => Some(infos[d].clients@[c]),
            None => None::<DrmClientInfo>,
        }),
{
    lemma_index_of_unique(dev_names(infos), infos[d].dev@, d);
}

proof fn lemma_lookup_no_dev(infos: Seq<DevClients>, dev: Seq<char>, minor: u32, id: u32)
    requires
        forall|i: int| 0 <= i < infos.len() ==> (#[trigger] infos[i]).dev@ != dev,
    ensures
        lookup(infos, dev, minor, id) is None,
{
    assert forall|i: int| 0 <= i < dev_names(infos).len() implies dev_names(infos)[i] != dev by {
        assert(dev_names(infos)[i] == infos[i].dev@);
    }
    lemma_index_of_absent(dev_names(infos), dev);
}

/// A table where only device `d`'s entry changed keeps every lookup of the
/// other devices.
proof fn lemma_lookup_other_dev(
    a: Seq<DevClients>,
    b: Seq<DevClients>,
    d: int,
    dev: Seq<char>,
    minor: u32,
    id: u32,
)
    requires
        0 <= d < a.len(),
        a.len() == b.len(),
        dev_names(a) == dev_names(b),
        forall|i: int| 0 <= i < a.len() && i != d ==> a[i] == b[i],
        dev != a[d].dev@,
        seq_unique(dev_names(a)),
    ensures
        lookup(a, dev, minor, id) == lookup(b, dev, minor, id),
{
    dev_names(a).index_of_first_ensures(dev);
    match dev_names(a).index_of_first(dev) {
        Some(i) => {
            assert(dev_names(a)[i] == a[i].dev@);
            assert(i != d);
        },
        None => {},
    }
}

/// Within one device's clients: the lookup of a key after the clients
/// changed to `cs2`, when both are well ordered.
proof fn lemma_key_lookup(cs: Seq<DrmClientInfo>, k: (u32, u32), q: int)
    requires
        seq_unique(ckeys(cs)),
        0 <= q < cs.len(),
        ckey(cs[q]) == k,
    ensures
        ckeys(cs).index_of_first(k) == Some(q),
{
    assert(ckeys(cs)[q] == k);
    lemma_index_of_unique(ckeys(cs), k, q);
}

proof fn lemma_key_absent(cs: Seq<DrmClientInfo>, k: (u32, u32))
    requires
        forall|i: int| 0 <= i < cs.len() ==> ckey(#[trigger] cs[i]) != k,
    ensures
        ckeys(cs).index_of_first(k) is None,
{
    assert forall|i: int| 0 <= i < ckeys(cs).len() implies ckeys(cs)[i] != k by {
        assert(ckeys(cs)[i] == ckey(cs[i]));
    }
    lemma_index_of_absent(ckeys(cs), k);
}

/// Where a key sits among a device's clients, when it is there.
proof fn lemma_key_found(cs: Seq<DrmClientInfo>, k: (u32, u32))
    ensures
        ckeys(cs).index_of_first(k) matches Some(c) ==> 0 <= c < cs.len() && ckey(cs[c]) == k,
        ckeys(cs).index_of_first(k) is None ==> forall|i: int|
            0 <= i < cs.len() ==> ckey(#[trigger] cs[i]) != k,
{
    ckeys(cs).index_of_first_ensures(k);
    if ckeys(cs).index_of_first(k) is None {
        assert forall|i: int| 0 <= i < cs.len() implies ckey(#[trigger] cs[i]) != k by {
            assert(ckeys(cs)[i] == ckey(cs[i]));
            if ckey(cs[i]) == k {
                assert(ckeys(cs).contains(k));
            }
        }
    }
}

/// What `lookup` finds is a client of the device asked for, with the key
/// asked for.
proof fn lemma_lookup_props(infos: Seq<DevClients>, dev: Seq<char>, minor: u32, id: u32)
    requires
        infos_wf(infos),
    ensures
        lookup(infos, dev, minor, id) matches Some(c) ==> c.pci_dev@ == dev && ckey(c) == (
            minor,
            id,
        ),
{
    dev_names(infos).index_of_first_ensures(dev);
    match dev_names(infos).index_of_first(dev) {
        Some(d) => {
            assert(dev_names(infos)[d] == infos[d].dev@);
            lemma_key_found(infos[d].clients@, (minor, id));
            assert(dev_clients_wf(infos[d]));
        },
        None => {},
    }
}

/// Same pid, command name and command line.
pub open spec fn same_proc(a: ProcModel, b: ProcModel) -> bool {
    a.pid == b.pid && a.comm == b.comm && a.cmdline == b.cmdline
}

/// No process appears twice in the table.
pub open spec fn procs_unique(ps: Seq<ProcInfo>) -> bool {
    forall|i: int, j: int| 0 <= i < j < ps.len() ==> !same_proc(#[trigger] ps[i]@, #[trigger] ps[j]@)
}

/// The entries of a process table.
pub open spec fn proc_views(ps: Seq<ProcInfo>) -> Seq<ProcModel> {
    ps.map_values(|p: ProcInfo| p@)
}

/// Where, from `i` on, the table `ps` holds a process like `p` (first such
/// place), or the table's length.
pub open spec fn proc_pos_from(ps: Seq<ProcModel>, p: ProcModel, i: int) -> int
    decreases ps.len() - i,
{
    if 0 <= i < ps.len() {
        if same_proc(ps[i], p) {
            i
        } else {
            proc_pos_from(ps, p, i + 1)
        }
    } else {
        ps.len() as int
    }
}

/// The table's entry for a process after its sample `s`: the CPU time
/// sample is taken unless it went back.
pub open spec fn proc_step(old: ProcModel, s: ProcModel) -> ProcModel {
    if s.cputime_last >= old.cputime_last {
        crate::procinfo::spec_proc_sample(
            old,
            crate::procinfo::ProcStat { cputime: s.cputime_last, nr_threads: s.nr_threads },
            s.last_update,
        )
    } else {
        old
    }
}

/// The entry of the process sampled as `p` in the table `ps` once it took
/// the sample: its entry stepped, or `p` itself stepped when it is new.
pub open spec fn proc_entry(ps: Seq<ProcModel>, p: ProcModel) -> ProcModel {
    let t = proc_pos_from(ps, p, 0);
    if t < ps.len() {
        proc_step(ps[t], p)
    } else {
        proc_step(p, p)
    }
}

/// The table `ps` once the process sampled as `p` took its sample.
pub open spec fn table_step(ps: Seq<ProcModel>, p: ProcModel) -> Seq<ProcModel> {
    let t = proc_pos_from(ps, p, 0);
    if t < ps.len() {
        ps.update(t, proc_entry(ps, p))
    } else {
        ps.push(proc_entry(ps, p))
    }
}

/// The table `ps` after the scans `scans`: each process found with DRM
/// fdinfos takes its sample.
pub open spec fn proc_tables(ps: Seq<ProcModel>, scans: Seq<ProcScan>) -> Seq<ProcModel>
    decreases scans.len(),
{
    if scans.len() == 0 {
        ps
    } else {
        let t = proc_tables(ps, scans.drop_last());
        if scans.last().fdinfos@.len() > 0 {
            table_step(t, scans.last().proc@)
        } else {
            t
        }
    }
}

/// The table's entry for a process like `p`, or `p` when there is none.
pub open spec fn table_proc(ps: Seq<ProcModel>, p: ProcModel) -> ProcModel {
    let t = proc_pos_from(ps, p, 0);
    if t < ps.len() {
        ps[t]
    } else {
        p
    }
}

/// A client whose process is shown as the table `ps` holds it.
pub open spec fn synced(c: ClientModel, ps: Seq<ProcModel>) -> ClientModel {
    ClientModel { proc: table_proc(ps, c.proc), ..c }
}

/// Device `b` is device `a` with its clients' processes shown as the table
/// `ps` holds them.
#[verifier::opaque]
spec fn synced_dev(a: DevClients, b: DevClients, ps: Seq<ProcModel>) -> bool {
    &&& b.dev == a.dev
    &&& b.clients@.len() == a.clients@.len()
    &&& forall|c: int| 0 <= c < a.clients@.len() ==> (#[trigger] b.clients@[c]).model() == synced(a.clients@[c].model(), ps)
}

proof fn lemma_synced_dev_shape(a: DevClients, b: DevClients, ps: Seq<ProcModel>)
    requires
        synced_dev(a, b, ps),
    ensures
        b.dev == a.dev,
        b.clients@.len() == a.clients@.len(),
        ckeys(b.clients@) == ckeys(a.clients@),
        forall|c: int| 0 <= c < a.clients@.len() ==> ckey(#[trigger] b.clients@[c]) == ckey(a.clients@[c])
            && b.clients@[c].pci_dev@ == a.clients@[c].pci_dev@
            && b.clients@[c].model() == synced(a.clients@[c].model(), ps),
{
    reveal(synced_dev);
    assert forall|c: int| 0 <= c < a.clients@.len() implies ckey(#[trigger] b.clients@[c]) == ckey(a.clients@[c])
        && b.clients@[c].pci_dev@ == a.clients@[c].pci_dev@
        && b.clients@[c].model() == synced(a.clients@[c].model(), ps) by {
        assert(b.clients@[c].model().drm_minor == a.clients@[c].model().drm_minor);
        assert(b.clients@[c].model().client_id == a.clients@[c].model().client_id);
        assert(b.clients@[c].model().pci_dev == a.clients@[c].model().pci_dev);
    }
    assert(ckeys(b.clients@) =~= ckeys(a.clients@));
}

proof fn lemma_synced_dev_wf(a: DevClients, b: DevClients, ps: Seq<ProcModel>)
    requires
        synced_dev(a, b, ps),
        dev_clients_wf(a),
    ensures
        dev_clients_wf(b),
{
    lemma_synced_dev_shape(a, b, ps);
    assert forall|i: int, j: int| 0 <= i < j < b.clients@.len() implies ckey_lt(
        ckey(#[trigger] b.clients@[i]),
        ckey(#[trigger] b.clients@[j]),
    ) by {
        assert(ckey(b.clients@[i]) == ckey(a.clients@[i]));
        assert(ckey(b.clients@[j]) == ckey(a.clients@[j]));
    }
    assert forall|c: int| 0 <= c < b.clients@.len() implies (#[trigger] b.clients@[c]).pci_dev@ == b.dev@ by {
        assert(b.clients@[c].pci_dev@ == a.clients@[c].pci_dev@);
    }
}

proof fn lemma_synced_table(a: Seq<DevClients>, b: Seq<DevClients>, ps: Seq<ProcModel>)
    requires
        infos_wf(a),
        b.len() == a.len(),
        forall|x: int| 0 <= x < a.len() ==> synced_dev(a[x], #[trigger] b[x], ps),
    ensures
        infos_wf(b),
        forall|dv: Seq<char>, m: u32, i: u32|
            #![trigger lookup(b, dv, m, i)]
            match lookup(a, dv, m, i) {
                Some(c) => lookup(b, dv, m, i) matches Some(c2) && c2.model() == synced(c.model(), ps),
                None => lookup(b, dv, m, i) is None,
            },
{
    assert forall|x: int| 0 <= x < a.len() implies dev_names(b)[x] == dev_names(a)[x] by {
        lemma_synced_dev_shape(a[x], b[x], ps);
    }
    assert(dev_names(b) =~= dev_names(a));
    assert forall|x: int| 0 <= x < a.len() implies ckeys((#[trigger] a[x]).clients@) == ckeys(b[x].clients@) by {
        lemma_synced_dev_shape(a[x], b[x], ps);
    }
    assert forall|x: int| 0 <= x < b.len() implies dev_clients_wf(#[trigger] b[x]) by {
        assert(dev_clients_wf(a[x]));
        lemma_synced_dev_wf(a[x], b[x], ps);
    }
    assert forall|dv: Seq<char>, m: u32, i: u32|
        #![trigger lookup(b, dv, m, i)]
        match lookup(a, dv, m, i) {
            Some(c) => lookup(b, dv, m, i) matches Some(c2) && c2.model() == synced(c.model(), ps),
            None => lookup(b, dv, m, i) is None,
        } by {
        lemma_lookup_same_place(a, b, dv, m, i);
        if let Some(c) = lookup(a, dv, m, i) {
            let (x, q) = choose|x: int, q: int|
                0 <= x < a.len() && 0 <= q < a[x].clients@.len() && q < b[x].clients@.len() && a[x].dev@ == dv
                    && #[trigger] a[x].clients@[q] == c && b[x].clients@[q] == lookup(b, dv, m, i)->0;
            lemma_synced_dev_shape(a[x], b[x], ps);
        }
    }
}

/// Where the search for a process like `p` stops holds such a process, and
/// it stops before the end when the table holds one from `i` on.
proof fn lemma_proc_pos_found(ps: Seq<ProcModel>, p: ProcModel, i: int)
    requires
        0 <= i <= ps.len(),
    ensures
        i <= proc_pos_from(ps, p, i) <= ps.len(),
        proc_pos_from(ps, p, i) < ps.len() ==> same_proc(ps[proc_pos_from(ps, p, i)], p),
        (exists|t: int| i <= t < ps.len() && same_proc(#[trigger] ps[t], p)) ==> proc_pos_from(ps, p, i) < ps.len(),
    decreases ps.len() - i,
{
    if i < ps.len() && !same_proc(ps[i], p) {
        lemma_proc_pos_found(ps, p, i + 1);
        if exists|t: int| i <= t < ps.len() && same_proc(#[trigger] ps[t], p) {
            let t = choose|t: int| i <= t < ps.len() && same_proc(#[trigger] ps[t], p);
            assert(t != i);
            assert(i + 1 <= t < ps.len() && same_proc(ps[t], p));
        }
    }
}

/// The process entry a tracked client holds is just its `proc`.
proof fn lemma_tracked_proc(prev: Option<DrmClientInfo>, p: ProcModel, q: ProcModel, occ: Seq<ScanEntry>)
    requires
        occ.len() > 0,
    ensures
        tracked_client(prev, q, occ) == (ClientModel { proc: q, ..tracked_client(prev, p, occ) }),
{
}

proof fn lemma_proc_pos(ps: Seq<ProcModel>, p: ProcModel, i: int, t: int)
    requires
        0 <= i <= t <= ps.len(),
        forall|q: int| i <= q < t ==> !same_proc(#[trigger] ps[q], p),
        t == ps.len() || same_proc(ps[t], p),
    ensures
        proc_pos_from(ps, p, i) == t,
    decreases t - i,
{
    if i < t {
        lemma_proc_pos(ps, p, i + 1, t);
    }
}

/// Some client of the table belongs to a process like `p`.
pub open spec fn referenced(infos: Seq<DevClients>, p: ProcModel) -> bool {
    exists|d: int, c: int|
        0 <= d < infos.len() && 0 <= c < infos[d].clients@.len() && same_proc(
            (#[trigger] infos[d].clients@[c]).proc@,
            p,
        )
}

/// The processes of `ps` that some client of `infos` belongs to, in order.
pub open spec fn kept_procs(ps: Seq<ProcModel>, infos: Seq<DevClients>) -> Seq<ProcModel>
    decreases ps.len(),
{
    if ps.len() == 0 {
        Seq::empty()
    } else {
        let k = kept_procs(ps.drop_last(), infos);
        if referenced(infos, ps.last()) {
            k.push(ps.last())
        } else {
            k
        }
    }
}

/// Every client's process is in the table.
pub open spec fn clients_procs_in(infos: Seq<DevClients>, ps: Seq<ProcInfo>) -> bool {
    forall|dev: Seq<char>, m: u32, i: u32|
        #![trigger lookup(infos, dev, m, i)]
        lookup(infos, dev, m, i) is Some ==> exists|t: int|
            0 <= t < ps.len() && same_proc(lookup(infos, dev, m, i)->0.proc@, #[trigger] ps[t]@)
}

/// A client that `lookup` finds sits somewhere in the table.
proof fn lemma_lookup_positional(infos: Seq<DevClients>, dev: Seq<char>, minor: u32, id: u32)
    ensures
        lookup(infos, dev, minor, id) matches Some(c) ==> exists|d: int, q: int|
            0 <= d < infos.len() && 0 <= q < infos[d].clients@.len() && #[trigger] infos[d].clients@[q]
                == c,
{
    dev_names(infos).index_of_first_ensures(dev);
    match dev_names(infos).index_of_first(dev) {
        Some(d) => {
            lemma_key_found(infos[d].clients@, (minor, id));
            match ckeys(infos[d].clients@).index_of_first((minor, id)) {
                Some(q) => {
                    assert(infos[d].clients@[q] == infos[d].clients@[q]);
                },
                None => {},
            }
        },
        None => {},
    }
}

/// The fdinfo `f` is among the first `n` scans.
pub open spec fn key_in_scans(scans: Seq<ProcScan>, n: int, key: (Seq<char>, u32, u32)) -> bool {
    exists|s: int, j: int|
        0 <= s < n && 0 <= j < scans[s].fdinfos@.len() && fdi_key(
            #[trigger] scans[s].fdinfos@[j],
        ) == key
}

/// An fdinfo read for a process.
pub type ScanEntry = (ProcModel, DrmFdinfo);

/// The fdinfos `fs` read for the process `p`.
pub open spec fn entries_of(p: ProcModel, fs: Seq<DrmFdinfo>) -> Seq<ScanEntry> {
    fs.map_values(|f: DrmFdinfo| (p, f))
}

/// Every fdinfo of a scan, in the order it was read.
pub open spec fn scan_entries(scans: Seq<ProcScan>) -> Seq<ScanEntry>
    decreases scans.len(),
{
    if scans.len() == 0 {
        Seq::empty()
    } else {
        scan_entries(scans.drop_last()) + entries_of(scans.last().proc@, scans.last().fdinfos@)
    }
}

/// The entry is of the client `key`.
pub open spec fn has_key(key: (Seq<char>, u32, u32)) -> spec_fn(ScanEntry) -> bool {
    |e: ScanEntry| fdi_key(e.1) == key
}

/// A client as one refresh leaves it, for the process entry `p`, when `occ`
/// (not empty) are the fdinfos of the client read in that refresh, in order,
/// and `prev` the client as it was before: the first fdinfo is taken as its
/// sample, by the client carried over or by a new one; the paths of the
/// others are its shared fdinfos.
pub open spec fn tracked_client(prev: Option<DrmClientInfo>, p: ProcModel, occ: Seq<ScanEntry>) -> ClientModel {
    let f = fdinfo_sample_of(occ[0].1);
    let base = match prev {
        Some(c) => spec_client_update(ClientModel { shared_fdinfos: Seq::empty(), ..c.model() }, p, f),
        None => spec_client_from(p, f),
    };
    ClientModel { shared_fdinfos: occ.drop_first().map_values(|e: ScanEntry| e.1.path@), ..base }
}

/// A client seen before and read again in a refresh carries its accounting
/// over: it keeps its identity and the driver of its memory, counts one more
/// update, its engines step from what it knew of them, and its time since
/// the last sample is the time between its two samples.
pub proof fn lemma_seen_again_carries_over(prev: DrmClientInfo, p: ProcModel, occ: Seq<ScanEntry>)
    requires
        occ.len() > 0,
    ensures
        ({
            let c = tracked_client(Some(prev), p, occ);
            let f = occ[0].1;
            &&& c.pci_dev == prev.pci_dev@ && c.drm_minor == prev.drm_minor && c.client_id == prev.client_id
            &&& c.driver == prev.driver
            &&& c.nr_updates == sat_inc(prev.nr_updates)
            &&& c.engs == next_engines(prev.model().engs, f.model().engines)
            &&& c.ms_elapsed == sat_sub(f.time_sampled, prev.last_update)
            &&& c.last_update == f.time_sampled
        }),
{
}

/// A client first read in a refresh starts afresh: one update, no time
/// elapsed, and no driver for its memory yet.
pub proof fn lemma_first_seen_starts_afresh(p: ProcModel, occ: Seq<ScanEntry>)
    requires
        occ.len() > 0,
    ensures
        ({
            let c = tracked_client(None, p, occ);
            &&& c.nr_updates == 1
            &&& c.ms_elapsed == 0
            &&& c.last_update == occ[0].1.time_sampled
            &&& c.driver is None
        }),
{
}

/// The client `key` of the new table `b` (the previous table now being
/// `tbl_b`) after the fdinfos `occ` of the client, read for the process `p`,
/// were filed into the new table `a` (the previous one being `tbl_a`).
spec fn filed(
    a: Seq<DevClients>,
    b: Seq<DevClients>,
    tbl_a: Seq<DevClients>,
    tbl_b: Seq<DevClients>,
    p: ProcModel,
    occ: Seq<ScanEntry>,
    dv: Seq<char>,
    m: u32,
    i: u32,
) -> bool {
    &&& match lookup(a, dv, m, i) {
        Some(c) => lookup(b, dv, m, i) matches Some(c2) && c2.model() == (ClientModel {
            shared_fdinfos: c.model().shared_fdinfos + occ.map_values(|x: ScanEntry| x.1.path@),
            ..c.model()
        }),
        None => if occ.len() == 0 {
            lookup(b, dv, m, i) is None
        } else {
            lookup(b, dv, m, i) matches Some(c2) && c2.model() == tracked_client(
                lookup(tbl_a, dv, m, i),
                c2.model().proc,
                occ,
            ) && same_proc(c2.model().proc, p)
        },
    }
    &&& lookup(tbl_b, dv, m, i) == if lookup(a, dv, m, i) is None && occ.len() > 0 {
        None::<DrmClientInfo>
    } else {
        lookup(tbl_a, dv, m, i)
    }
}

/// The client `key` after the scanned fdinfos of it `occ` were filed into
/// the new table `ninfos`, the previous table `orig` being now `tbl`.
spec fn refresh_step(
    orig: Seq<DevClients>,
    ninfos: Seq<DevClients>,
    tbl: Seq<DevClients>,
    occ: Seq<ScanEntry>,
    dv: Seq<char>,
    m: u32,
    i: u32,
) -> bool {
    &&& lookup(ninfos, dv, m, i) is Some <==> occ.len() > 0
    &&& lookup(ninfos, dv, m, i) matches Some(c) ==> c.model() == tracked_client(
        lookup(orig, dv, m, i),
        c.model().proc,
        occ,
    ) && same_proc(c.model().proc, occ[0].0)
    &&& lookup(tbl, dv, m, i) == if occ.len() > 0 {
        None::<DrmClientInfo>
    } else {
        lookup(orig, dv, m, i)
    }
}

/// One more fdinfo `e` of a client already tracked in this refresh: its
/// path joins the shared ones.
proof fn lemma_tracked_push(prev: Option<DrmClientInfo>, p: ProcModel, occ: Seq<ScanEntry>, e: ScanEntry)
    requires
        occ.len() > 0,
    ensures
        tracked_client(prev, p, occ.push(e)) == (ClientModel {
            shared_fdinfos: tracked_client(prev, p, occ).shared_fdinfos.push(e.1.path@),
            ..tracked_client(prev, p, occ)
        }),
{
    assert(occ.push(e)[0] == occ[0]);
    assert(occ.push(e).drop_first() =~= occ.drop_first().push(e));
    assert(occ.push(e).drop_first().map_values(|x: ScanEntry| x.1.path@) =~= occ.drop_first().map_values(
        |x: ScanEntry| x.1.path@,
    ).push(e.1.path@));
}

/// Fdinfos of a client read in two parts of a refresh.
proof fn lemma_tracked_append(prev: Option<DrmClientInfo>, p: ProcModel, a: Seq<ScanEntry>, b: Seq<ScanEntry>)
    requires
        a.len() > 0,
    ensures
        tracked_client(prev, p, a + b) == (ClientModel {
            shared_fdinfos: tracked_client(prev, p, a).shared_fdinfos + b.map_values(|x: ScanEntry| x.1.path@),
            ..tracked_client(prev, p, a)
        }),
{
    assert((a + b)[0] == a[0]);
    assert((a + b).drop_first() =~= a.drop_first() + b);
    assert((a + b).drop_first().map_values(|x: ScanEntry| x.1.path@) =~= a.drop_first().map_values(
        |x: ScanEntry| x.1.path@,
    ) + b.map_values(|x: ScanEntry| x.1.path@));
}

/// Tables whose clients belong to the same processes keep the same ones.
pub proof fn lemma_kept_procs_same(ps: Seq<ProcModel>, a: Seq<DevClients>, b: Seq<DevClients>)
    requires
        forall|p: ProcModel| #[trigger] referenced(a, p) == referenced(b, p),
    ensures
        kept_procs(ps, a) == kept_procs(ps, b),
    decreases ps.len(),
{
    if ps.len() > 0 {
        lemma_kept_procs_same(ps.drop_last(), a, b);
        assert(referenced(a, ps.last()) == referenced(b, ps.last()));
    }
}

/// A process entry is kept exactly when it is in the table and some client
/// belongs to it.
pub proof fn lemma_kept_procs(ps: Seq<ProcModel>, infos: Seq<DevClients>, p: ProcModel)
    ensures
        kept_procs(ps, infos).contains(p) == (ps.contains(p) && referenced(infos, p)),
    decreases ps.len(),
{
    if ps.len() > 0 {
        lemma_kept_procs(ps.drop_last(), infos, p);
        if ps.drop_last().contains(p) {
            let i = choose|i: int| 0 <= i < ps.drop_last().len() && ps.drop_last()[i] == p;
            assert(ps[i] == p);
        }
        if ps.contains(p) {
            let i = choose|i: int| 0 <= i < ps.len() && ps[i] == p;
            if i < ps.len() - 1 {
                assert(ps.drop_last()[i] == p);
            }
        }
        let k = kept_procs(ps.drop_last(), infos);
        if referenced(infos, ps.last()) {
            if k.push(ps.last()).contains(p) {
                let i = choose|i: int| 0 <= i < k.push(ps.last()).len() && k.push(ps.last())[i] == p;
                if i < k.len() {
                    assert(k[i] == p);
                }
            }
            if k.contains(p) {
                let i = choose|i: int| 0 <= i < k.len() && k[i] == p;
                assert(k.push(ps.last())[i] == p);
            }
            if p == ps.last() {
                assert(k.push(ps.last())[k.len() as int] == p);
            }
        }
    } else {
        assert(!ps.contains(p));
    }
}

impl DrmClients {
    pub open spec fn wf(&self) -> bool {
        infos_wf(self.infos@)
    }

    /// A table for the process tree of `at_pid`, or for all processes when
    /// `at_pid` is empty. `pid_dir_exists` tells whether `/proc/<at_pid>` is
    /// a directory.
    pub fn from_pid_tree(at_pid: &str, pid_dir_exists: bool) -> (r: Result<
        DrmClients,
        ClientsError,
    >)
        ensures
            (at_pid@.len() > 0 && !(crate::text::is_digit(at_pid@[0]) && pid_dir_exists)) ==> r
                == Err::<DrmClients, ClientsError>(ClientsError::InvalidPid),
            !(at_pid@.len() > 0 && !(crate::text::is_digit(at_pid@[0]) && pid_dir_exists)) ==> (
            r matches Ok(c) && c.base_pid@ == at_pid@ && c.infos@.len() == 0 && c.procs@.len()
                == 0),
    {
        if at_pid.unicode_len() > 0 && !ProcInfo::is_valid_pid(at_pid, pid_dir_exists) {
            return Err(ClientsError::InvalidPid);
        }
        Ok(DrmClients { base_pid: String::from_str(at_pid), infos: Vec::new(), procs: Vec::new() })
    }

    /// Index of the device `dev` in `map` (or the number of devices).
    fn dev_pos(map: &Vec<DevClients>, dev: &String) -> (r: usize)
        ensures
            r <= map@.len(),
            r < map@.len() ==> map@[r as int].dev@ == dev@,
            r == map@.len() ==> forall|i: int| 0 <= i < map@.len() ==> (#[trigger] map@[i]).dev@ != dev@,
    {
        let mut k: usize = 0;
        while k < map.len()
            invariant
                k <= map@.len(),
                forall|i: int| 0 <= i < k ==> (#[trigger] map@[i]).dev@ != dev@,
            decreases map@.len() - k,
        {
            if map[k].dev == *dev {
                return k;
            }
            k = k + 1;
        }
        k
    }

    /// Index of the client with key `(minor, id)` in `cs` (or the number of
    /// clients).
    fn key_pos(cs: &Vec<DrmClientInfo>, minor: u32, id: u32) -> (r: usize)
        ensures
            r <= cs@.len(),
            r < cs@.len() ==> ckey(cs@[r as int]) == (minor, id),
            r == cs@.len() ==> forall|i: int| 0 <= i < cs@.len() ==> ckey(#[trigger] cs@[i]) != (minor, id),
    {
        let mut k: usize = 0;
        while k < cs.len()
            invariant
                k <= cs@.len(),
                forall|i: int| 0 <= i < k ==> ckey(#[trigger] cs@[i]) != (minor, id),
            decreases cs@.len() - k,
        {
            if cs[k].drm_minor == minor && cs[k].client_id == id {
                return k;
            }
            k = k + 1;
        }
        k
    }

    /// Where the client of device `dev` with key `(minor, id)` sits in
    /// `map`, if it is there.
    fn map_has_client(map: &Vec<DevClients>, dev: &String, minor: u32, id: u32) -> (r: Option<
        (usize, usize),
    >)
        requires
            infos_wf(map@),
        ensures
            match r {
                Some((d, c)) => d < map@.len() && c < map@[d as int].clients@.len() && lookup(
                    map@,
                    dev@,
                    minor,
                    id,
                ) == Some(map@[d as int].clients@[c as int]) && map@[d as int].dev@ == dev@
                    && ckey(map@[d as int].clients@[c as int]) == (minor, id),
                None => lookup(map@, dev@, minor, id) is None,
            },
    {
        let d = Self::dev_pos(map, dev);
        if d == map.len() {
            proof {
                lemma_lookup_no_dev(map@, dev@, minor, id);
            }
            return None;
        }
        let c = Self::key_pos(&map[d].clients, minor, id);
        proof {
            lemma_lookup_at_dev(map@, d as int, minor, id);
            lemma_keys_unique(map@[d as int]);
        }
        if c == map[d].clients.len() {
            proof {
                lemma_key_absent(map@[d as int].clients@, (minor, id));
            }
            return None;
        }
        proof {
            lemma_key_lookup(map@[d as int].clients@, (minor, id), c as int);
        }
        Some((d, c))
    }

    /// Takes the client of device `dev` with key `(minor, id)` out of `map`,
    /// if it is there.
    fn map_remove_client(map: &mut Vec<DevClients>, dev: &String, minor: u32, id: u32) -> (r:
        Option<DrmClientInfo>)
        requires
            infos_wf(old(map)@),
        ensures
            infos_wf(final(map)@),
            r == lookup(old(map)@, dev@, minor, id),
            forall|dv: Seq<char>, m: u32, i: u32|
                #![trigger lookup(final(map)@, dv, m, i)]
                lookup(final(map)@, dv, m, i) == if (dv, m, i) == (dev@, minor, id) {
                    None
                } else {
                    lookup(old(map)@, dv, m, i)
                },
    {
        let ghost a = map@;
        match Self::map_has_client(map, dev, minor, id) {
            None => None,
            Some((d, c)) => {
                let mut dc = map.remove(d);
                let cli = dc.clients.remove(c);
                let ghost dc_old = a[d as int];
                map.insert(d, dc);
                proof {
                    let b = map@;
                    assert(b =~= a.update(d as int, b[d as int]));
                    assert(dev_names(b) =~= dev_names(a));
                    assert(b[d as int].dev@ == dev@);
                    assert(b[d as int].clients@ =~= dc_old.clients@.remove(c as int));
                    assert(dev_clients_wf(b[d as int]));
                    assert(infos_wf(b));
                    lemma_keys_unique(dc_old);
                    lemma_keys_unique(b[d as int]);
                    assert forall|dv: Seq<char>, m: u32, i: u32|
                        #![trigger lookup(b, dv, m, i)]
                        lookup(b, dv, m, i) == if (dv, m, i) == (dev@, minor, id) {
                            None
                        } else {
                            lookup(a, dv, m, i)
                        } by {
                        if dv != dev@ {
                            lemma_lookup_other_dev(a, b, d as int, dv, m, i);
                        } else {
                            lemma_lookup_at_dev(a, d as int, m, i);
                            lemma_lookup_at_dev(b, d as int, m, i);
                            let cs = dc_old.clients@;
                            let ns = b[d as int].clients@;
                            lemma_key_found(cs, (m, i));
                            lemma_key_found(ns, (m, i));
                            if (m, i) == (minor, id) {
                                match ckeys(ns).index_of_first((m, i)) {
                                    Some(q) => {
                                        if q < c {
                                            assert(ns[q] == cs[q]);
                                            assert(ckeys(cs)[q] == ckeys(cs)[c as int]);
                                        } else {
                                            assert(ns[q] == cs[q + 1]);
                                            assert(ckeys(cs)[q + 1] == ckeys(cs)[c as int]);
                                        }
                                    },
                                    None => {},
                                }
                            } else {
                                match ckeys(cs).index_of_first((m, i)) {
                                    Some(q) => {
                                        assert(q != c);
                                        if q < c {
                                            assert(ns[q] == cs[q]);
                                            lemma_key_lookup(ns, (m, i), q);
                                        } else {
                                            assert(ns[q - 1] == cs[q]);
                                            lemma_key_lookup(ns, (m, i), q - 1);
                                        }
                                    },
                                    None => {
                                        assert forall|j: int| 0 <= j < ns.len() implies ckey(
                                            #[trigger] ns[j],
                                        ) != (m, i) by {
                                            if j < c {
                                                assert(ns[j] == cs[j]);
                                            } else {
                                                assert(ns[j] == cs[j + 1]);
                                            }
                                        }
                                        lemma_key_absent(ns, (m, i));
                                    },
                                }
                            }
                        }
                    }
                }
                Some(cli)
            },
        }
    }

    /// Adds `cli`, a client of device `dev` not yet in `map`, keeping each
    /// device's clients in order.
    fn map_insert_client(map: &mut Vec<DevClients>, dev: String, cli: DrmClientInfo)
        requires
            infos_wf(old(map)@),
            cli.pci_dev@ == dev@,
            lookup(old(map)@, dev@, cli.drm_minor, cli.client_id) is None,
        ensures
            infos_wf(final(map)@),
            forall|dv: Seq<char>, m: u32, i: u32|
                #![trigger lookup(final(map)@, dv, m, i)]
                lookup(final(map)@, dv, m, i) == if (dv, m, i) == (dev@, cli.drm_minor, cli.client_id) {
                    Some(cli)
                } else {
                    lookup(old(map)@, dv, m, i)
                },
    {
        let ghost a = map@;
        let ghost k = (cli.drm_minor, cli.client_id);
        let d = Self::dev_pos(map, &dev);
        if d == map.len() {
            let mut cs: Vec<DrmClientInfo> = Vec::new();
            cs.push(cli);
            map.push(DevClients { dev, clients: cs });
            proof {
                let b = map@;
                assert(b =~= a.push(b[d as int]));
                assert(dev_names(b) =~= dev_names(a).push(dev@));
                assert(dev_clients_wf(b[d as int]));
                assert(infos_wf(b));
                assert forall|dv: Seq<char>, m: u32, i: u32|
                    #![trigger lookup(b, dv, m, i)]
                    lookup(b, dv, m, i) == if (dv, m, i) == (dev@, k.0, k.1) {
                        Some(cli)
                    } else {
                        lookup(a, dv, m, i)
                    } by {
                    if dv == dev@ {
                        lemma_lookup_at_dev(b, d as int, m, i);
                        lemma_lookup_no_dev(a, dv, m, i);
                        lemma_keys_unique(b[d as int]);
                        lemma_key_found(b[d as int].clients@, (m, i));
                        if (m, i) == k {
                            lemma_key_lookup(b[d as int].clients@, (m, i), 0);
                        }
                    } else {
                        dev_names(a).index_of_first_ensures(dv);
                        dev_names(b).index_of_first_ensures(dv);
                        match dev_names(a).index_of_first(dv) {
                            Some(q) => {
                                assert(dev_names(b)[q] == dv);
                                lemma_index_of_unique(dev_names(b), dv, q);
                            },
                            None => {
                                assert(!dev_names(b).contains(dv)) by {
                                    if dev_names(b).contains(dv) {
                                        let q = choose|q: int| 0 <= q < dev_names(b).len() && dev_names(b)[q] == dv;
                                        assert(q != d);
                                        assert(dev_names(a)[q] == dv);
                                    }
                                }
                            },
                        }
                    }
                }
            }
            return;
        }
        let mut dc = map.remove(d);
        let ghost cs = dc.clients@;
        let mut p: usize = 0;
        while p < dc.clients.len() && (dc.clients[p].drm_minor < cli.drm_minor || (
        dc.clients[p].drm_minor == cli.drm_minor && dc.clients[p].client_id < cli.client_id))
            invariant
                p <= dc.clients@.len(),
                cs == dc.clients@,
                k == (cli.drm_minor, cli.client_id),
                forall|q: int| 0 <= q < p ==> ckey_lt(ckey(#[trigger] cs[q]), k),
            decreases dc.clients@.len() - p,
        {
            p = p + 1;
        }
        proof {
            lemma_lookup_at_dev(a, d as int, k.0, k.1);
            lemma_key_found(cs, k);
        }
        dc.clients.insert(p, cli);
        map.insert(d, dc);
        proof {
            let b = map@;
            let ns = b[d as int].clients@;
            assert(b =~= a.update(d as int, b[d as int]));
            assert(dev_names(b) =~= dev_names(a));
            assert(ns =~= cs.insert(p as int, cli));
            assert(b[d as int].dev@ == dev@);
            assert forall|x: int, y: int| 0 <= x < y < ns.len() implies ckey_lt(
                ckey(#[trigger] ns[x]),
                ckey(#[trigger] ns[y]),
            ) by {
                if y < p {
                    assert(ns[x] == cs[x] && ns[y] == cs[y]);
                } else if y == p {
                    assert(ns[x] == cs[x]);
                } else if x == p {
                    assert(ns[y] == cs[y - 1]);
                    assert(!ckey_lt(ckey(cs[p as int]), k));
                    assert(ckey(cs[p as int]) != k);
                    if y - 1 > p {
                        assert(ckey_lt(ckey(cs[p as int]), ckey(cs[y - 1])));
                    }
                } else if x < p {
                    assert(ns[x] == cs[x] && ns[y] == cs[y - 1]);
                } else {
                    assert(ns[x] == cs[x - 1] && ns[y] == cs[y - 1]);
                }
            }
            assert(dev_clients_wf(b[d as int]));
            assert(infos_wf(b));
            lemma_keys_unique(b[d as int]);
            lemma_keys_unique(a[d as int]);
            assert forall|dv: Seq<char>, m: u32, i: u32|
                #![trigger lookup(b, dv, m, i)]
                lookup(b, dv, m, i) == if (dv, m, i) == (dev@, k.0, k.1) {
                    Some(cli)
                } else {
                    lookup(a, dv, m, i)
                } by {
                if dv != dev@ {
                    lemma_lookup_other_dev(a, b, d as int, dv, m, i);
                } else {
                    lemma_lookup_at_dev(a, d as int, m, i);
                    lemma_lookup_at_dev(b, d as int, m, i);
                    lemma_key_found(cs, (m, i));
                    lemma_key_found(ns, (m, i));
                    if (m, i) == k {
                        lemma_key_lookup(ns, k, p as int);
                    } else {
                        match ckeys(cs).index_of_first((m, i)) {
                            Some(q) => {
                                if q < p {
                                    assert(ns[q] == cs[q]);
                                    lemma_key_lookup(ns, (m, i), q);
                                } else {
                                    assert(ns[q + 1] == cs[q]);
                                    lemma_key_lookup(ns, (m, i), q + 1);
                                }
                            },
                            None => {
                                assert forall|j: int| 0 <= j < ns.len() implies ckey(
                                    #[trigger] ns[j],
                                ) != (m, i) by {
                                    if j < p {
                                        assert(ns[j] == cs[j]);
                                    } else if j > p {
                                        assert(ns[j] == cs[j - 1]);
                                    }
                                }
                                lemma_key_absent(ns, (m, i));
                            },
                        }
                    }
                }
            }
        }
    }

    /// The clients of the device `dev`, in ascending order of DRM minor and
    /// client id.
    pub fn device_clients(&self, dev: &String) -> (r: Option<&Vec<DrmClientInfo>>)
        ensures
            match r {
                Some(cs) => exists|d: int|
                    0 <= d < self.infos@.len() && self.infos@[d].dev@ == dev@ && cs
                        == &self.infos@[d].clients,
                None => forall|d: int| 0 <= d < self.infos@.len() ==> (#[trigger] self.infos@[d]).dev@ != dev@,
            },
    {
        let d = Self::dev_pos(&self.infos, dev);
        if d < self.infos.len() {
            Some(&self.infos[d].clients)
        } else {
            None
        }
    }

    /// Lets `drv` report the memory of every client of the device `dev`.
    pub fn set_dev_clients_driver(&mut self, dev: &String, drv: ClientMemDriver)
        requires
            old(self).wf(),
        ensures
            final(self).wf(),
            final(self).base_pid == old(self).base_pid,
            final(self).procs == old(self).procs,
            dev_names(final(self).infos@) == dev_names(old(self).infos@),
            forall|d: int|
                0 <= d < old(self).infos@.len() ==> (#[trigger] final(self).infos@[d]).clients@.len()
                    == old(self).infos@[d].clients@.len(),
            forall|d: int, c: int|
                0 <= d < old(self).infos@.len() && 0 <= c < old(self).infos@[d].clients@.len()
                    ==> (#[trigger] final(self).infos@[d].clients@[c]).model() == if old(
                    self,
                ).infos@[d].dev@ == dev@ {
                    ClientModel { driver: Some(drv), ..old(self).infos@[d].clients@[c].model() }
                } else {
                    old(self).infos@[d].clients@[c].model()
                },
            forall|dv: Seq<char>, m: u32, i: u32|
                #![trigger lookup(final(self).infos@, dv, m, i)]
                match lookup(old(self).infos@, dv, m, i) {
                    Some(c) => lookup(final(self).infos@, dv, m, i) matches Some(c2) && c2.model() == if dv
                        == dev@ {
                        ClientModel { driver: Some(drv), ..c.model() }
                    } else {
                        c.model()
                    },
                    None => lookup(final(self).infos@, dv, m, i) is None,
                },
            forall|p: ProcModel| #[trigger] referenced(final(self).infos@, p) == referenced(old(self).infos@, p),
    {
        let ghost a0 = self.infos@;
        let d = Self::dev_pos(&self.infos, dev);
        if d == self.infos.len() {
            proof {
                assert forall|dv: Seq<char>, m: u32, i: u32| dv == dev@ implies #[trigger] lookup(a0, dv, m, i) is None by {
                    lemma_lookup_no_dev(a0, dv, m, i);
                }
            }
            return;
        }
        let ghost a = self.infos@;
        let mut dc = self.infos.remove(d);
        let ghost cs = dc.clients@;
        let mut k: usize = 0;
        while k < dc.clients.len()
            invariant
                k <= dc.clients@.len() == cs.len(),
                dc.dev == a[d as int].dev,
                forall|c: int|
                    0 <= c < cs.len() ==> (#[trigger] dc.clients@[c]).model() == if c < k {
                        ClientModel { driver: Some(drv), ..cs[c].model() }
                    } else {
                        cs[c].model()
                    },
            decreases cs.len() - k,
        {
            let mut cl = dc.clients.remove(k);
            cl.set_driver(drv);
            dc.clients.insert(k, cl);
            k = k + 1;
        }
        self.infos.insert(d, dc);
        proof {
            let b = self.infos@;
            assert(dev_names(b) =~= dev_names(a));
            assert forall|c: int| 0 <= c < cs.len() implies ckey(#[trigger] b[d as int].clients@[c])
                == ckey(cs[c]) && b[d as int].clients@[c].pci_dev@ == cs[c].pci_dev@ by {
                assert(b[d as int].clients@[c].model().drm_minor == cs[c].model().drm_minor);
            }
            assert(dev_clients_wf(a[d as int]));
            assert forall|x: int, y: int| 0 <= x < y < b[d as int].clients@.len() implies ckey_lt(
                ckey(#[trigger] b[d as int].clients@[x]),
                ckey(#[trigger] b[d as int].clients@[y]),
            ) by {
                assert(ckey(b[d as int].clients@[x]) == ckey(cs[x]));
                assert(ckey(b[d as int].clients@[y]) == ckey(cs[y]));
            }
            assert(dev_clients_wf(b[d as int]));
            assert forall|i: int| 0 <= i < b.len() implies dev_clients_wf(#[trigger] b[i]) by {
                if i != d {
                    assert(b[i] == a[i]);
                }
            }
            assert forall|i: int, c: int|
                0 <= i < a.len() && 0 <= c < a[i].clients@.len() implies (#[trigger] b[i].clients@[c]).model() == if a[i].dev@ == dev@ {
                    ClientModel { driver: Some(drv), ..a[i].clients@[c].model() }
                } else {
                    a[i].clients@[c].model()
                } by {
                if i != d {
                    assert(b[i] == a[i]);
                    assert(dev_names(a)[i] != dev_names(a)[d as int]);
                }
            }
            assert forall|x: int| 0 <= x < a.len() implies ckeys((#[trigger] a[x]).clients@) == ckeys(b[x].clients@) by {
                if x != d {
                    assert(b[x] == a[x]);
                } else {
                    assert(ckeys(a[x].clients@) =~= ckeys(b[x].clients@));
                }
            }
            assert forall|dv: Seq<char>, m: u32, i: u32|
                #![trigger lookup(b, dv, m, i)]
                match lookup(a, dv, m, i) {
                    Some(c) => lookup(b, dv, m, i) matches Some(c2) && c2.model() == if dv == dev@ {
                        ClientModel { driver: Some(drv), ..c.model() }
                    } else {
                        c.model()
                    },
                    None => lookup(b, dv, m, i) is None,
                } by {
                lemma_lookup_same_place(a, b, dv, m, i);
                if let Some(c) = lookup(a, dv, m, i) {
                    let (x, q) = choose|x: int, q: int|
                        0 <= x < a.len() && 0 <= q < a[x].clients@.len() && q < b[x].clients@.len() && a[x].dev@ == dv
                            && #[trigger] a[x].clients@[q] == c && b[x].clients@[q] == lookup(b, dv, m, i)->0;
                    assert(b[x].clients@[q].model() == if a[x].dev@ == dev@ {
                        ClientModel { driver: Some(drv), ..a[x].clients@[q].model() }
                    } else {
                        a[x].clients@[q].model()
                    });
                }
            }
            assert forall|p: ProcModel| #[trigger] referenced(b, p) == referenced(a, p) by {
                if referenced(a, p) {
                    let (x, c) = choose|x: int, c: int|
                        0 <= x < a.len() && 0 <= c < a[x].clients@.len() && same_proc((#[trigger] a[x].clients@[c]).proc@, p);
                    assert(b[x].clients@[c].model().proc == a[x].clients@[c].model().proc);
                    assert(same_proc(b[x].clients@[c].proc@, p));
                }
                if referenced(b, p) {
                    let (x, c) = choose|x: int, c: int|
                        0 <= x < b.len() && 0 <= c < b[x].clients@.len() && same_proc((#[trigger] b[x].clients@[c]).proc@, p);
                    assert(b[x].clients@[c].model().proc == a[x].clients@[c].model().proc);
                    assert(same_proc(a[x].clients@[c].proc@, p));
                }
            }
        }
    }

    /// Shows each client of `dc` with its process as the process table
    /// `procs` holds it.
    fn sync_dev_procs(dc: &mut DevClients, procs: &Vec<ProcInfo>)
        ensures
            final(dc).dev == old(dc).dev,
            final(dc).clients@.len() == old(dc).clients@.len(),
            forall|c: int|
                0 <= c < old(dc).clients@.len() ==> (#[trigger] final(dc).clients@[c]).model() == synced(
                    old(dc).clients@[c].model(),
                    proc_views(procs@),
                ),
    {
        let ghost pv = proc_views(procs@);
        let ghost cs = dc.clients@;
        let mut q: usize = 0;
        while q < dc.clients.len()
            invariant
                q <= dc.clients@.len() == cs.len(),
                dc.dev == old(dc).dev,
                cs == old(dc).clients@,
                pv == proc_views(procs@),
                forall|c: int|
                    0 <= c < cs.len() ==> (#[trigger] dc.clients@[c]).model() == if c < q {
                        synced(cs[c].model(), pv)
                    } else {
                        cs[c].model()
                    },
            decreases cs.len() - q,
        {
            let mut cl = dc.clients.remove(q);
            let mut t: usize = 0;
            while t < procs.len() && !procs[t].same_process(&cl.proc)
                invariant
                    t <= procs@.len(),
                    pv == proc_views(procs@),
                    forall|u: int| 0 <= u < t ==> !same_proc(#[trigger] pv[u], cl.proc@),
                decreases procs@.len() - t,
            {
                proof {
                    assert(pv[t as int] == procs@[t as int]@);
                }
                t = t + 1;
            }
            proof {
                if t < procs@.len() {
                    assert(pv[t as int] == procs@[t as int]@);
                }
                lemma_proc_pos(pv, cl.proc@, 0, t as int);
            }
            let ghost m0 = cl.model();
            if t < procs.len() {
                cl.proc = procs[t].duplicate();
            }
            proof {
                assert(cl.model() == synced(m0, pv));
            }
            dc.clients.insert(q, cl);
            q = q + 1;
        }
    }

    /// Shows each client's process as the process table `procs` holds it.
    fn synced_infos(infos: Vec<DevClients>, procs: &Vec<ProcInfo>) -> (r: Vec<DevClients>)
        ensures
            r@.len() == infos@.len(),
            forall|x: int| 0 <= x < infos@.len() ==> synced_dev(infos@[x], #[trigger] r@[x], proc_views(procs@)),
        decreases infos@.len(),
    {
        let mut infos = infos;
        let ghost a = infos@;
        if infos.len() == 0 {
            return infos;
        }
        let mut last = infos.pop().unwrap();
        proof {
            assert(infos@ =~= a.drop_last());
            assert(last == a.last());
        }
        let mut r = Self::synced_infos(infos, procs);
        let ghost l0 = last;
        Self::sync_dev_procs(&mut last, procs);
        proof {
            reveal(synced_dev);
            assert(synced_dev(l0, last, proc_views(procs@)));
        }
        let ghost r0 = r@;
        r.push(last);
        proof {
            assert forall|x: int| 0 <= x < a.len() implies synced_dev(a[x], #[trigger] r@[x], proc_views(procs@)) by {
                if x < a.len() - 1 {
                    assert(r@[x] == r0[x]);
                    assert(a[x] == a.drop_last()[x]);
                }
            }
        }
        r
    }

    /// The table's entry for the process `proc`, added if the process is new,
    /// after taking the CPU time sample that `proc` carries.
    fn proc_info_ref(&mut self, proc: &ProcInfo) -> (r: ProcInfo)
        requires
            procs_unique(old(self).procs@),
        ensures
            procs_unique(final(self).procs@),
            final(self).infos == old(self).infos,
            final(self).base_pid == old(self).base_pid,
            final(self).procs@.len() >= old(self).procs@.len(),
            forall|t: int|
                0 <= t < old(self).procs@.len() ==> same_proc(
                    #[trigger] final(self).procs@[t]@,
                    old(self).procs@[t]@,
                ),
            exists|t: int| 0 <= t < final(self).procs@.len() && final(self).procs@[t]@ == r@,
            same_proc(r@, proc@),
            proc_views(final(self).procs@) == table_step(proc_views(old(self).procs@), proc@),
            r@ == proc_entry(proc_views(old(self).procs@), proc@),
    {
        let ghost a = self.procs@;
        let ghost av = proc_views(a);
        let mut t: usize = 0;
        while t < self.procs.len() && !self.procs[t].same_process(proc)
            invariant
                t <= self.procs@.len(),
                forall|q: int| 0 <= q < t ==> !same_proc(#[trigger] self.procs@[q]@, proc@),
            decreases self.procs@.len() - t,
        {
            t = t + 1;
        }
        if t == self.procs.len() {
            self.procs.push(proc.duplicate());
            proof {
                let b = self.procs@;
                assert forall|i: int, j: int| 0 <= i < j < b.len() implies !same_proc(
                    #[trigger] b[i]@,
                    #[trigger] b[j]@,
                ) by {
                    if j < a.len() {
                        assert(b[i] == a[i] && b[j] == a[j]);
                    } else {
                        assert(b[i] == a[i]);
                    }
                }
            }
        }
        proof {
            assert forall|q: int| 0 <= q < t implies !same_proc(#[trigger] av[q], proc@) by {
                assert(av[q] == a[q]@);
            }
            if t < a.len() {
                assert(av[t as int] == a[t as int]@);
            }
            lemma_proc_pos(av, proc@, 0, t as int);
        }
        let ghost pre = self.procs@;
        let mut p = self.procs.remove(t);
        let ghost p0 = p@;
        proof {
            assert(p0 == if t < a.len() { av[t as int] } else { proc@ });
        }
        let sample = crate::procinfo::ProcStat { cputime: proc.cputime_last, nr_threads: proc.nr_threads };
        let _ = p.update_with(sample, proc.last_update);
        let r = p.duplicate();
        let ghost before = self.procs@;
        self.procs.insert(t, p);
        proof {
            let b = self.procs@;
            assert(b[t as int]@ == r@);
            assert(r@ == proc_step(p0, proc@));
            assert(b =~= pre.update(t as int, p));
            if t < a.len() {
                assert(pre == a);
                assert(proc_views(b) =~= av.update(t as int, r@));
            } else {
                assert(pre =~= a.push(pre[t as int]));
                assert(proc_views(b) =~= av.push(r@));
            }
            assert forall|i: int, j: int| 0 <= i < j < b.len() implies !same_proc(
                #[trigger] b[i]@,
                #[trigger] b[j]@,
            ) by {
                assert(i != t ==> b[i] == before.insert(t as int, p)[i]);
            }
        }
        r
    }


    /// Files the fdinfo `fdi` of the process `pref` into the new table
    /// `ninfos`: a client already there gets one more shared fdinfo path; a
    /// client of the previous table moves over with this sample taken; any
    /// other is a new client.
    fn track_fdinfo(&mut self, ninfos: &mut Vec<DevClients>, pref: &ProcInfo, fdi: DrmFdinfo)
        requires
            infos_wf(old(self).infos@),
            infos_wf(old(ninfos)@),
            clients_procs_in(old(ninfos)@, old(self).procs@),
            exists|t: int| 0 <= t < old(self).procs@.len() && same_proc(pref@, #[trigger] old(self).procs@[t]@),
        ensures
            infos_wf(final(self).infos@),
            infos_wf(final(ninfos)@),
            final(self).procs == old(self).procs,
            final(self).base_pid == old(self).base_pid,
            clients_procs_in(final(ninfos)@, final(self).procs@),
            forall|dv: Seq<char>, m: u32, i: u32|
                #![trigger lookup(final(ninfos)@, dv, m, i)]
                #![trigger lookup(final(self).infos@, dv, m, i)]
                (dv, m, i) != fdi_key(fdi) ==> lookup(final(ninfos)@, dv, m, i) == lookup(
                    old(ninfos)@,
                    dv,
                    m,
                    i,
                ) && lookup(final(self).infos@, dv, m, i) == lookup(old(self).infos@, dv, m, i),
            match lookup(old(ninfos)@, fdi.pci_dev@, fdi.drm_minor, fdi.client_id) {
                Some(c) => {
                    &&& final(self).infos == old(self).infos
                    &&& lookup(final(ninfos)@, fdi.pci_dev@, fdi.drm_minor, fdi.client_id) matches Some(c2)
                    &&& c2.model() == (ClientModel {
                        shared_fdinfos: c.model().shared_fdinfos.push(fdi.path@),
                        ..c.model()
                    })
                },
                None => {
                    &&& lookup(final(self).infos@, fdi.pci_dev@, fdi.drm_minor, fdi.client_id) is None
                    &&& lookup(final(ninfos)@, fdi.pci_dev@, fdi.drm_minor, fdi.client_id) matches Some(c2)
                    &&& c2.model() == match lookup(old(self).infos@, fdi.pci_dev@, fdi.drm_minor, fdi.client_id) {
                        Some(c) => spec_client_update(
                            ClientModel { shared_fdinfos: Seq::empty(), ..c.model() },
                            pref@,
                            fdinfo_sample_of(fdi),
                        ),
                        None => spec_client_from(pref@, fdinfo_sample_of(fdi)),
                    }
                },
            },
    {
        let ghost a = ninfos@;
        let ghost ai = self.infos@;
        let ghost key = fdi_key(fdi);
        let ghost ps = self.procs@;
        let dev = fdi.pci_dev.clone();
        match Self::map_remove_client(ninfos, &dev, fdi.drm_minor, fdi.client_id) {
            Some(mut cli) => {
                proof {
                    lemma_lookup_props(a, dev@, fdi.drm_minor, fdi.client_id);
                }
                let ghost cm = cli.model();
                let ghost sh = cli.shared_fdinfos@;
                let DrmFdinfo { path, .. } = fdi;
                cli.shared_fdinfos.push(path);
                proof {
                    assert(cli.shared_fdinfos@ == sh.push(path));
                    assert(cli.model().shared_fdinfos =~= cm.shared_fdinfos.push(path@));
                }
                let ghost c2 = cli;
                Self::map_insert_client(ninfos, dev, cli);
                proof {
                    assert forall|dv: Seq<char>, m: u32, i: u32|
                        #![trigger lookup(ninfos@, dv, m, i)]
                        lookup(ninfos@, dv, m, i) is Some implies exists|t: int|
                            0 <= t < ps.len() && same_proc(lookup(ninfos@, dv, m, i)->0.proc@, #[trigger] ps[t]@) by {
                        if (dv, m, i) != key {
                            assert(lookup(ninfos@, dv, m, i) == lookup(a, dv, m, i));
                        } else {
                            assert(lookup(a, dv, m, i) is Some);
                        }
                    }
                }
            },
            None => {
                match Self::map_remove_client(&mut self.infos, &dev, fdi.drm_minor, fdi.client_id) {
                    Some(mut cli) => {
                        proof {
                            lemma_lookup_props(ai, dev@, fdi.drm_minor, fdi.client_id);
                        }
                        cli.shared_fdinfos = Vec::new();
                        let ghost cm = cli.model();
                        assert(cm.shared_fdinfos =~= Seq::<Seq<char>>::empty());
                        cli.update(pref.duplicate(), fdi);
                        Self::map_insert_client(ninfos, dev, cli);
                    },
                    None => {
                        let cli = DrmClientInfo::from(pref.duplicate(), fdi);
                        Self::map_insert_client(ninfos, dev, cli);
                    },
                }
                proof {
                    assert forall|dv: Seq<char>, m: u32, i: u32|
                        #![trigger lookup(ninfos@, dv, m, i)]
                        lookup(ninfos@, dv, m, i) is Some implies exists|t: int|
                            0 <= t < ps.len() && same_proc(lookup(ninfos@, dv, m, i)->0.proc@, #[trigger] ps[t]@) by {
                        if (dv, m, i) != key {
                            assert(lookup(ninfos@, dv, m, i) == lookup(a, dv, m, i));
                        } else {
                            let t = choose|t: int| 0 <= t < ps.len() && same_proc(pref@, #[trigger] ps[t]@);
                            assert(same_proc(lookup(ninfos@, dv, m, i)->0.proc@, ps[t]@));
                        }
                    }
                }
            },
        }
    }


    /// Files the DRM fdinfos `fdinfos` of the process `nproc` into the new
    /// table `ninfos`, after taking the process's sample into the process
    /// table.
    fn process_fdinfos(&mut self, ninfos: &mut Vec<DevClients>, nproc: &ProcInfo, fdinfos: Vec<DrmFdinfo>)
        requires
            infos_wf(old(self).infos@),
            infos_wf(old(ninfos)@),
            procs_unique(old(self).procs@),
            clients_procs_in(old(ninfos)@, old(self).procs@),
        ensures
            infos_wf(final(self).infos@),
            infos_wf(final(ninfos)@),
            procs_unique(final(self).procs@),
            proc_views(final(self).procs@) == table_step(proc_views(old(self).procs@), nproc@),
            final(self).base_pid == old(self).base_pid,
            clients_procs_in(final(ninfos)@, final(self).procs@),
            forall|dv: Seq<char>, m: u32, i: u32|
                #![trigger lookup(final(ninfos)@, dv, m, i)]
                lookup(final(ninfos)@, dv, m, i) is Some <==> (lookup(old(ninfos)@, dv, m, i) is Some
                    || exists|j: int| 0 <= j < fdinfos@.len() && fdi_key(#[trigger] fdinfos@[j]) == (dv, m, i)),
            forall|dv: Seq<char>, m: u32, i: u32|
                #![trigger lookup(final(ninfos)@, dv, m, i)]
                filed(
                    old(ninfos)@,
                    final(ninfos)@,
                    old(self).infos@,
                    final(self).infos@,
                    nproc@,
                    entries_of(nproc@, fdinfos@).filter(has_key((dv, m, i))),
                    dv,
                    m,
                    i,
                ),
    {
        let ghost a = ninfos@;
        let ghost ai = self.infos@;
        let ghost ps0 = self.procs@;
        let pref = self.proc_info_ref(nproc);
        let ghost ps1 = self.procs@;
        proof {
            let ps = self.procs@;
            assert forall|dv: Seq<char>, m: u32, i: u32|
                #![trigger lookup(a, dv, m, i)]
                lookup(a, dv, m, i) is Some implies exists|t: int|
                    0 <= t < ps.len() && same_proc(lookup(a, dv, m, i)->0.proc@, #[trigger] ps[t]@) by {
                let t = choose|t: int| 0 <= t < ps0.len() && same_proc(lookup(a, dv, m, i)->0.proc@, #[trigger] ps0[t]@);
                assert(same_proc(ps[t]@, ps0[t]@));
            }
            let t = choose|t: int| 0 <= t < ps.len() && ps[t]@ == pref@;
            assert(same_proc(pref@, ps[t]@));
            reveal(Seq::filter);
            assert forall|dv: Seq<char>, m: u32, i: u32|
                #![trigger lookup(a, dv, m, i)]
                filed(
                    a,
                    a,
                    ai,
                    ai,
                    nproc@,
                    entries_of(nproc@, fdinfos@.take(0)).filter(has_key((dv, m, i))),
                    dv,
                    m,
                    i,
                ) by {
                let occ = entries_of(nproc@, fdinfos@.take(0)).filter(has_key((dv, m, i)));
                assert(occ.len() == 0);
                if let Some(c) = lookup(a, dv, m, i) {
                    assert(c.model().shared_fdinfos + occ.map_values(|x: ScanEntry| x.1.path@)
                        =~= c.model().shared_fdinfos);
                }
            }
        }
        let mut rest = fdinfos;
        let ghost all = rest@;
        let mut k: usize = 0;
        let n0 = rest.len();
        assert(all.len() == n0);
        while rest.len() > 0
            invariant
                k <= all.len() <= usize::MAX,
                rest@ == all.skip(k as int),
                infos_wf(self.infos@),
                infos_wf(ninfos@),
                procs_unique(self.procs@),
                self.base_pid == old(self).base_pid,
                clients_procs_in(ninfos@, self.procs@),
                self.procs@ == ps1,
                exists|t: int| 0 <= t < self.procs@.len() && same_proc(pref@, #[trigger] self.procs@[t]@),
                forall|dv: Seq<char>, m: u32, i: u32|
                    #![trigger lookup(ninfos@, dv, m, i)]
                    lookup(ninfos@, dv, m, i) is Some <==> (lookup(a, dv, m, i) is Some
                        || exists|j: int| 0 <= j < k && fdi_key(#[trigger] all[j]) == (dv, m, i)),
                same_proc(pref@, nproc@),
                forall|dv: Seq<char>, m: u32, i: u32|
                    #![trigger lookup(ninfos@, dv, m, i)]
                    filed(
                        a,
                        ninfos@,
                        ai,
                        self.infos@,
                        nproc@,
                        entries_of(nproc@, all.take(k as int)).filter(has_key((dv, m, i))),
                        dv,
                        m,
                        i,
                    ),
            decreases rest@.len(),
        {
            let ghost before = ninfos@;
            let ghost tbefore = self.infos@;
            let fdi = rest.remove(0);
            assert(fdi == all[k as int]);
            assert(rest@ =~= all.skip(k + 1));
            self.track_fdinfo(ninfos, &pref, fdi);
            proof {
                let e: ScanEntry = (nproc@, all[k as int]);
                let ek = entries_of(nproc@, all.take(k as int));
                assert(all.take(k + 1) =~= all.take(k as int).push(all[k as int]));
                assert(entries_of(nproc@, all.take(k + 1)) =~= ek.push(e));
                assert forall|dv: Seq<char>, m: u32, i: u32|
                    #![trigger lookup(ninfos@, dv, m, i)]
                    filed(
                        a,
                        ninfos@,
                        ai,
                        self.infos@,
                        nproc@,
                        entries_of(nproc@, all.take(k + 1)).filter(has_key((dv, m, i))),
                        dv,
                        m,
                        i,
                    ) by {
                    let key = (dv, m, i);
                    let occ = ek.filter(has_key(key));
                    ek.lemma_filter_push(e, has_key(key));
                    assert(filed(a, before, ai, tbefore, nproc@, occ, dv, m, i));
                    if key == fdi_key(all[k as int]) {
                        assert(has_key(key)(e));
                        let occ2 = occ.push(e);
                        assert(occ2.map_values(|x: ScanEntry| x.1.path@) =~= occ.map_values(
                            |x: ScanEntry| x.1.path@,
                        ).push(e.1.path@));
                        match lookup(a, dv, m, i) {
                            Some(c) => {
                                let c2 = lookup(before, dv, m, i)->0;
                                assert(c.model().shared_fdinfos + occ2.map_values(|x: ScanEntry| x.1.path@) =~= (
                                c.model().shared_fdinfos + occ.map_values(|x: ScanEntry| x.1.path@)).push(e.1.path@));
                            },
                            None => {
                                if occ.len() == 0 {
                                    assert(occ2 =~= seq![e]);
                                    assert(occ2.drop_first().map_values(|x: ScanEntry| x.1.path@) =~= Seq::<Seq<char>>::empty());
                                } else {
                                    let c2 = lookup(before, dv, m, i)->0;
                                    lemma_tracked_push(lookup(ai, dv, m, i), c2.model().proc, occ, e);
                                }
                            },
                        }
                    } else {
                        assert(!has_key(key)(e));
                        assert(lookup(ninfos@, dv, m, i) == lookup(before, dv, m, i));
                        assert(lookup(self.infos@, dv, m, i) == lookup(tbefore, dv, m, i));
                    }
                }
            }
            proof {
                assert forall|dv: Seq<char>, m: u32, i: u32|
                    #![trigger lookup(ninfos@, dv, m, i)]
                    lookup(ninfos@, dv, m, i) is Some <==> (lookup(a, dv, m, i) is Some
                        || exists|j: int| 0 <= j < k + 1 && fdi_key(#[trigger] all[j]) == (dv, m, i)) by {
                    if (dv, m, i) != fdi_key(all[k as int]) {
                        assert(lookup(ninfos@, dv, m, i) == lookup(before, dv, m, i));
                        if exists|j: int| 0 <= j < k + 1 && fdi_key(#[trigger] all[j]) == (dv, m, i) {
                            let j = choose|j: int| 0 <= j < k + 1 && fdi_key(#[trigger] all[j]) == (dv, m, i);
                            assert(j < k);
                        }
                    } else {
                        assert(fdi_key(all[k as int]) == (dv, m, i));
                    }
                }
            }
            k = k + 1;
        }
        proof {
            assert(k == all.len());
            assert(all.take(k as int) =~= all);
        }
    }

    /// Whether some client of `infos` belongs to a process like `p`.
    fn is_referenced(infos: &Vec<DevClients>, p: &ProcInfo) -> (r: bool)
        ensures
            r == referenced(infos@, p@),
    {
        let mut d: usize = 0;
        while d < infos.len()
            invariant
                d <= infos@.len(),
                forall|x: int, c: int|
                    0 <= x < d && 0 <= c < infos@[x].clients@.len() ==> !same_proc(
                        (#[trigger] infos@[x].clients@[c]).proc@,
                        p@,
                    ),
            decreases infos@.len() - d,
        {
            let cs = &infos[d].clients;
            let mut c: usize = 0;
            while c < cs.len()
                invariant
                    c <= cs@.len(),
                    d < infos@.len(),
                    cs == &infos@[d as int].clients,
                    forall|y: int| 0 <= y < c ==> !same_proc((#[trigger] cs@[y]).proc@, p@),
                decreases cs@.len() - c,
            {
                if cs[c].proc.same_process(p) {
                    assert(same_proc(infos@[d as int].clients@[c as int].proc@, p@));
                    return true;
                }
                c = c + 1;
            }
            d = d + 1;
        }
        false
    }

    /// Drops from the process table the processes that no client belongs to.
    fn procs_info_cleanup(&mut self)
        requires
            procs_unique(old(self).procs@),
        ensures
            final(self).infos == old(self).infos,
            final(self).base_pid == old(self).base_pid,
            procs_unique(final(self).procs@),
            final(self).procs@.map_values(|p: ProcInfo| p@) == kept_procs(
                old(self).procs@.map_values(|p: ProcInfo| p@),
                old(self).infos@,
            ),
    {
        let ghost ps = self.procs@.map_values(|p: ProcInfo| p@);
        let mut kept: Vec<ProcInfo> = Vec::new();
        let mut k: usize = 0;
        assert(ps.take(0) =~= Seq::<ProcModel>::empty());
        while k < self.procs.len()
            invariant
                k <= self.procs@.len(),
                ps == self.procs@.map_values(|p: ProcInfo| p@),
                procs_unique(self.procs@),
                kept@.map_values(|p: ProcInfo| p@) == kept_procs(ps.take(k as int), self.infos@),
                procs_unique(kept@),
                forall|q: int| 0 <= q < kept@.len() ==> exists|t: int| 0 <= t < k && (#[trigger] kept@[q])@ == self.procs@[t]@,
            decreases self.procs@.len() - k,
        {
            proof {
                assert(ps.take(k + 1).drop_last() =~= ps.take(k as int));
                assert(ps.take(k + 1).last() == self.procs@[k as int]@);
            }
            if Self::is_referenced(&self.infos, &self.procs[k]) {
                let ghost before = kept@;
                let x = self.procs[k].duplicate();
                kept.push(x);
                proof {
                    assert(kept@ == before.push(x));
                    assert(kept@.map_values(|p: ProcInfo| p@) =~= before.map_values(|p: ProcInfo| p@).push(x@));
                    assert forall|i: int, j: int| 0 <= i < j < kept@.len() implies !same_proc(
                        #[trigger] kept@[i]@,
                        #[trigger] kept@[j]@,
                    ) by {
                        if j == kept@.len() - 1 {
                            let t = choose|t: int| 0 <= t < k && (#[trigger] before[i])@ == self.procs@[t]@;
                            assert(kept@[i] == before[i]);
                            assert(!same_proc(self.procs@[t]@, self.procs@[k as int]@));
                        } else {
                            assert(kept@[i] == before[i] && kept@[j] == before[j]);
                        }
                    }
                    assert forall|q: int| 0 <= q < kept@.len() implies exists|t: int| 0 <= t < k + 1 && (#[trigger] kept@[q])@ == self.procs@[t]@ by {
                        if q == kept@.len() - 1 {
                            assert(kept@[q]@ == self.procs@[k as int]@);
                        } else {
                            assert(kept@[q] == before[q]);
                        }
                    }
                }
            }
            k = k + 1;
        }
        assert(ps.take(k as int) =~= ps);
        self.procs = kept;
    }

    /// Rebuilds the client table from one scan of the processes under watch,
    /// `scans`, in the order they were found. A client seen before carries
    /// its accounting over; one not seen again leaves the table, and so does
    /// a process that no client belongs to any more.
    pub fn refresh(&mut self, scans: Vec<ProcScan>)
        requires
            old(self).wf(),
            procs_unique(old(self).procs@),
        ensures
            final(self).wf(),
            procs_unique(final(self).procs@),
            final(self).base_pid == old(self).base_pid,
            forall|dv: Seq<char>, m: u32, i: u32|
                #![trigger lookup(final(self).infos@, dv, m, i)]
                lookup(final(self).infos@, dv, m, i) is Some <==> key_in_scans(scans@, scans@.len() as int, (dv, m, i)),
            forall|dv: Seq<char>, m: u32, i: u32|
                #![trigger lookup(final(self).infos@, dv, m, i)]
                lookup(final(self).infos@, dv, m, i) matches Some(c) ==> ({
                    let occ = scan_entries(scans@).filter(has_key((dv, m, i)));
                    &&& occ.len() > 0
                    &&& c.model() == tracked_client(lookup(old(self).infos@, dv, m, i), c.model().proc, occ)
                    &&& same_proc(c.model().proc, occ[0].0)
                    &&& proc_views(final(self).procs@).contains(c.model().proc)
                }),
            proc_views(final(self).procs@) == kept_procs(proc_tables(proc_views(old(self).procs@), scans@), final(self).infos@),
            clients_procs_in(final(self).infos@, final(self).procs@),
            forall|t: int| 0 <= t < final(self).procs@.len() ==> referenced(final(self).infos@, #[trigger] final(self).procs@[t]@),
    {
        let ghost orig = self.infos@;
        let ghost ps0 = proc_views(self.procs@);
        let mut ninfos: Vec<DevClients> = Vec::new();
        proof {
            assert forall|dv: Seq<char>, m: u32, i: u32| #![trigger lookup(ninfos@, dv, m, i)] lookup(ninfos@, dv, m, i) is None by {
                lemma_lookup_no_dev(ninfos@, dv, m, i);
            }
            reveal(Seq::filter);
            assert(scans@.take(0).len() == 0);
            assert forall|dv: Seq<char>, m: u32, i: u32|
                #![trigger lookup(ninfos@, dv, m, i)]
                refresh_step(orig, ninfos@, orig, scan_entries(scans@.take(0)).filter(has_key((dv, m, i))), dv, m, i) by {
                lemma_lookup_no_dev(ninfos@, dv, m, i);
            }
        }
        let mut rest = scans;
        let ghost all = rest@;
        let mut k: usize = 0;
        let n0 = rest.len();
        assert(all.len() == n0);
        while rest.len() > 0
            invariant
                k <= all.len() <= usize::MAX,
                rest@ == all.skip(k as int),
                infos_wf(self.infos@),
                infos_wf(ninfos@),
                procs_unique(self.procs@),
                self.base_pid == old(self).base_pid,
                clients_procs_in(ninfos@, self.procs@),
                forall|dv: Seq<char>, m: u32, i: u32|
                    #![trigger lookup(ninfos@, dv, m, i)]
                    lookup(ninfos@, dv, m, i) is Some <==> key_in_scans(all, k as int, (dv, m, i)),
                forall|dv: Seq<char>, m: u32, i: u32|
                    #![trigger lookup(ninfos@, dv, m, i)]
                    refresh_step(orig, ninfos@, self.infos@, scan_entries(all.take(k as int)).filter(has_key((dv, m, i))), dv, m, i),
                proc_views(self.procs@) == proc_tables(ps0, all.take(k as int)),
            decreases rest@.len(),
        {
            let ghost before = ninfos@;
            let ghost tbefore = self.infos@;
            let sc = rest.remove(0);
            assert(sc == all[k as int]);
            assert(rest@ =~= all.skip(k + 1));
            let ProcScan { proc, fdinfos } = sc;
            let ghost fs = fdinfos@;
            let ghost pm = proc@;
            if fdinfos.len() > 0 {
                self.process_fdinfos(&mut ninfos, &proc, fdinfos);
            }
            proof {
                let ea = scan_entries(all.take(k as int));
                let eb = entries_of(pm, fs);
                assert(all.take(k + 1).drop_last() =~= all.take(k as int));
                assert(all.take(k + 1).last() == all[k as int]);
                assert(proc_views(self.procs@) == proc_tables(ps0, all.take(k + 1)));
                assert(scan_entries(all.take(k + 1)) == ea + eb);
                assert forall|dv: Seq<char>, m: u32, i: u32|
                    #![trigger lookup(ninfos@, dv, m, i)]
                    refresh_step(orig, ninfos@, self.infos@, scan_entries(all.take(k + 1)).filter(has_key((dv, m, i))), dv, m, i) by {
                    let hk = has_key((dv, m, i));
                    let oa = ea.filter(hk);
                    let ob = eb.filter(hk);
                    Seq::<ScanEntry>::filter_distributes_over_add(ea, eb, hk);
                    assert(refresh_step(orig, before, tbefore, oa, dv, m, i));
                    if fs.len() == 0 {
                        reveal(Seq::filter);
                        assert(eb.len() == 0);
                        assert(oa + ob =~= oa);
                    } else {
                        assert(filed(before, ninfos@, tbefore, self.infos@, pm, ob, dv, m, i));
                        if ob.len() > 0 {
                            assert(ob.contains(ob[0]));
                            eb.lemma_filter_contains_rev(hk, ob[0]);
                            assert((oa + ob)[0] == if oa.len() > 0 { oa[0] } else { ob[0] });
                        }
                        if oa.len() > 0 {
                            let c = lookup(before, dv, m, i)->0;
                            lemma_tracked_append(lookup(orig, dv, m, i), c.model().proc, oa, ob);
                        } else {
                            assert(oa + ob =~= ob);
                        }
                    }
                }
            }
            proof {
                assert forall|dv: Seq<char>, m: u32, i: u32|
                    #![trigger lookup(ninfos@, dv, m, i)]
                    lookup(ninfos@, dv, m, i) is Some <==> key_in_scans(all, k + 1, (dv, m, i)) by {
                    if key_in_scans(all, k + 1, (dv, m, i)) {
                        let (s0, j0) = choose|s0: int, j0: int| 0 <= s0 < k + 1 && 0 <= j0 < all[s0].fdinfos@.len() && fdi_key(#[trigger] all[s0].fdinfos@[j0]) == (dv, m, i);
                        if s0 == k {
                            assert(fs[j0] == all[s0].fdinfos@[j0]);
                            assert(fdi_key(fs[j0]) == (dv, m, i));
                        } else {
                            assert(key_in_scans(all, k as int, (dv, m, i)));
                        }
                    }
                    if lookup(ninfos@, dv, m, i) is Some && !(lookup(before, dv, m, i) is Some) {
                        let j0 = choose|j0: int| 0 <= j0 < fs.len() && fdi_key(#[trigger] fs[j0]) == (dv, m, i);
                        assert(all[k as int].fdinfos@[j0] == fs[j0]);
                    }
                    if key_in_scans(all, k as int, (dv, m, i)) {
                        let (s0, j0) = choose|s0: int, j0: int| 0 <= s0 < k && 0 <= j0 < all[s0].fdinfos@.len() && fdi_key(#[trigger] all[s0].fdinfos@[j0]) == (dv, m, i);
                        assert(key_in_scans(all, k + 1, (dv, m, i)));
                    }
                }
            }
            k = k + 1;
        }
        assert(all.take(k as int) =~= all);
        let ghost n0 = ninfos@;
        let ghost pv = proc_views(self.procs@);
        let ninfos = Self::synced_infos(ninfos, &self.procs);
        proof {
            lemma_synced_table(n0, ninfos@, pv);
            let ps = self.procs@;
            assert forall|dv: Seq<char>, m: u32, i: u32|
                #![trigger lookup(ninfos@, dv, m, i)]
                lookup(ninfos@, dv, m, i) matches Some(c2) ==> ({
                    let occ = scan_entries(all).filter(has_key((dv, m, i)));
                    &&& occ.len() > 0
                    &&& c2.model() == tracked_client(lookup(orig, dv, m, i), c2.model().proc, occ)
                    &&& same_proc(c2.model().proc, occ[0].0)
                    &&& exists|t: int| 0 <= t < ps.len() && #[trigger] ps[t]@ == c2.model().proc
                }) by {
                if let Some(c2) = lookup(ninfos@, dv, m, i) {
                    let occ = scan_entries(all).filter(has_key((dv, m, i)));
                    assert(refresh_step(orig, n0, self.infos@, occ, dv, m, i));
                    let c = lookup(n0, dv, m, i)->0;
                    assert(c2.model() == synced(c.model(), pv));
                    let t = choose|t: int| 0 <= t < ps.len() && same_proc(lookup(n0, dv, m, i)->0.proc@, #[trigger] ps[t]@);
                    assert(pv[t] == ps[t]@);
                    lemma_proc_pos_found(pv, c.model().proc, 0);
                    let u = proc_pos_from(pv, c.model().proc, 0);
                    assert(pv[u] == ps[u]@);
                    lemma_tracked_proc(lookup(orig, dv, m, i), c.model().proc, c2.model().proc, occ);
                }
            }
            assert forall|dv: Seq<char>, m: u32, i: u32|
                #![trigger lookup(ninfos@, dv, m, i)]
                lookup(ninfos@, dv, m, i) is Some implies exists|t: int|
                    0 <= t < ps.len() && same_proc(lookup(ninfos@, dv, m, i)->0.proc@, #[trigger] ps[t]@) by {
                let c2 = lookup(ninfos@, dv, m, i)->0;
                let t = choose|t: int| 0 <= t < ps.len() && #[trigger] ps[t]@ == c2.model().proc;
                assert(same_proc(c2.proc@, ps[t]@));
            }
            assert forall|dv: Seq<char>, m: u32, i: u32|
                #![trigger lookup(ninfos@, dv, m, i)]
                lookup(ninfos@, dv, m, i) is Some <==> key_in_scans(all, all.len() as int, (dv, m, i)) by {
                assert(lookup(n0, dv, m, i) is Some <==> key_in_scans(all, k as int, (dv, m, i)));
            }
        }
        self.infos = ninfos;
        let ghost ps = self.procs@;
        self.procs_info_cleanup();
        proof {
            let infos = self.infos@;
            let fps = self.procs@;
            let pm = ps.map_values(|p: ProcInfo| p@);
            assert(pm == proc_views(ps));
            assert(proc_views(fps) == kept_procs(pm, infos));
            assert forall|dv: Seq<char>, m: u32, i: u32|
                #![trigger lookup(infos, dv, m, i)]
                lookup(infos, dv, m, i) matches Some(c) ==> proc_views(fps).contains(c.model().proc) by {
                if let Some(c) = lookup(infos, dv, m, i) {
                    let t = choose|t: int| 0 <= t < ps.len() && #[trigger] ps[t]@ == c.model().proc;
                    lemma_lookup_positional(infos, dv, m, i);
                    let (d, q) = choose|d: int, q: int| 0 <= d < infos.len() && 0 <= q < infos[d].clients@.len() && #[trigger] infos[d].clients@[q] == c;
                    assert(referenced(infos, ps[t]@));
                    assert(pm[t] == ps[t]@);
                    assert(pm.contains(ps[t]@));
                    lemma_kept_procs(pm, infos, ps[t]@);
                }
            }
            assert forall|dv: Seq<char>, m: u32, i: u32|
                #![trigger lookup(infos, dv, m, i)]
                lookup(infos, dv, m, i) is Some implies exists|t: int|
                    0 <= t < fps.len() && same_proc(lookup(infos, dv, m, i)->0.proc@, #[trigger] fps[t]@) by {
                let c = lookup(infos, dv, m, i)->0;
                let t = choose|t: int| 0 <= t < ps.len() && same_proc(c.proc@, #[trigger] ps[t]@);
                lemma_lookup_positional(infos, dv, m, i);
                let (d, q) = choose|d: int, q: int| 0 <= d < infos.len() && 0 <= q < infos[d].clients@.len() && #[trigger] infos[d].clients@[q] == c;
                assert(referenced(infos, ps[t]@));
                assert(pm[t] == ps[t]@);
                assert(pm.contains(ps[t]@));
                lemma_kept_procs(pm, infos, ps[t]@);
                let u = choose|u: int| 0 <= u < kept_procs(pm, infos).len() && kept_procs(pm, infos)[u] == ps[t]@;
                assert(fps.map_values(|p: ProcInfo| p@)[u] == fps[u]@);
                assert(same_proc(c.proc@, fps[u]@));
            }
            assert forall|t: int| 0 <= t < fps.len() implies referenced(infos, #[trigger] fps[t]@) by {
                assert(fps.map_values(|p: ProcInfo| p@)[t] == fps[t]@);
                assert(kept_procs(pm, infos).contains(fps[t]@));
                lemma_kept_procs(pm, infos, fps[t]@);
            }
        }
    }

}

} // verus!
