//! DRM clients for the first-generation tracking: per-client engine and
//! memory accounting across samples, and the table of clients by device.
use vstd::prelude::*;

use crate::clients::{
    lemma_mem_sums_nonneg, lemma_mem_sums_prefix, lemma_sat_sum_pos, mem_class, mem_info_is,
    mem_sums, mem_sums_fit, sat_inc, sat_sub, sat_sum, ClientMemDriver, EngUtilization, MemClass,
    MemSums,
};
use crate::fdinfo::{
    eng_index, eng_index_from, lemma_eng_index_from, model_wf, EngineModel, RegionModel,
};
use crate::qmdrmfdinfo::{QmDrmEngine, QmDrmFdinfo, QmDrmMemRegion};
use crate::qmprocinfo::{qm_sample_of, QmProcInfo, QmProcModel};
use crate::procinfo::FdinfoSample;
use crate::text::{lemma_sorted_distinct_strict, lex_sorted, lex_strictly_sorted, sort_strings};

verus! {

/// Sum of the engine counters of the engines that moved forward since the
/// previous sample.
#[derive(Debug, Clone, Copy, PartialEq, Eq, Structural)]
pub struct QmDrmEnginesAcum {
    pub acum_time: u64,
    pub acum_cycles: u64,
    pub acum_total_cycles: u64,
}

impl QmDrmEnginesAcum {
    pub fn new() -> (r: QmDrmEnginesAcum)
        ensures
            r == (QmDrmEnginesAcum { acum_time: 0, acum_cycles: 0, acum_total_cycles: 0 }),
    {
        QmDrmEnginesAcum { acum_time: 0, acum_cycles: 0, acum_total_cycles: 0 }
    }
}

/// How much each counter of an engine moved forward.
#[derive(Debug, Clone, Copy, PartialEq, Eq, Structural)]
pub struct QmDrmEngineDelta {
    pub delta_time: u64,
    pub delta_cycles: u64,
    pub delta_total_cycles: u64,
}

impl QmDrmEngineDelta {
    pub fn new() -> (r: QmDrmEngineDelta)
        ensures
            r == (QmDrmEngineDelta { delta_time: 0, delta_cycles: 0, delta_total_cycles: 0 }),
    {
        QmDrmEngineDelta { delta_time: 0, delta_cycles: 0, delta_total_cycles: 0 }
    }
}

/// A client's memory: used and resident bytes in system memory and in VRAM.
#[derive(Debug, Clone, Copy, PartialEq, Eq, Structural)]
pub struct QmDrmClientMemInfo {
    pub smem_used: u64,
    pub smem_rss: u64,
    pub vram_used: u64,
    pub vram_rss: u64,
}

pub open spec fn qm_mem_info_is(m: QmDrmClientMemInfo, s: MemSums) -> bool {
    &&& m.smem_used == s.smem_used
    &&& m.smem_rss == s.smem_rss
    &&& m.vram_used == s.vram_used
    &&& m.vram_rss == s.vram_rss
}

impl QmDrmClientMemInfo {
    pub fn new() -> (r: QmDrmClientMemInfo)
        ensures
            r == (QmDrmClientMemInfo { smem_used: 0, smem_rss: 0, vram_used: 0, vram_rss: 0 }),
    {
        QmDrmClientMemInfo { smem_used: 0, smem_rss: 0, vram_used: 0, vram_rss: 0 }
    }
}

/// A client's memory as `drv` reports it from the client's memory regions.
pub fn qm_client_mem_info(drv: ClientMemDriver, mem_regs: &Vec<QmDrmMemRegion>) -> (r: QmDrmClientMemInfo)
    requires
        mem_sums_fit(drv, mem_regs@.map_values(|m: QmDrmMemRegion| m@)),
    ensures
        qm_mem_info_is(r, mem_sums(drv, mem_regs@.map_values(|m: QmDrmMemRegion| m@))),
{
    let ghost rs = mem_regs@.map_values(|m: QmDrmMemRegion| m@);
    let mut cmi = QmDrmClientMemInfo::new();
    let mut k: usize = 0;
    assert(rs.take(0) =~= Seq::<RegionModel>::empty());
    while k < mem_regs.len()
        invariant
            k <= mem_regs@.len(),
            rs == mem_regs@.map_values(|m: QmDrmMemRegion| m@),
            mem_sums_fit(drv, rs),
            qm_mem_info_is(cmi, mem_sums(drv, rs.take(k as int))),
        decreases mem_regs@.len() - k,
    {
        let mr = &mem_regs[k];
        proof {
            assert(rs.take(k + 1).drop_last() =~= rs.take(k as int));
            assert(rs.take(k + 1).last() == mr@);
            lemma_mem_sums_prefix(drv, rs, k + 1);
        }
        match mem_class(drv, mr.name.as_str()) {
            MemClass::System => {
                cmi.smem_used = cmi.smem_used + mr.total;
                cmi.smem_rss = cmi.smem_rss + mr.resident;
            },
            MemClass::Vram => {
                cmi.vram_used = cmi.vram_used + mr.total;
                cmi.vram_rss = cmi.vram_rss + mr.resident;
            },
            MemClass::Skipped => {},
        }
        k = k + 1;
    }
    assert(rs.take(k as int) =~= rs);
    cmi
}

/// One engine of a client: its last sample and how it moved.
#[derive(Debug)]
pub struct QmClientEngine {
    pub last: QmDrmEngine,
    pub delta: QmDrmEngineDelta,
}

pub struct QmClientEngModel {
    pub last: EngineModel,
    pub delta: QmDrmEngineDelta,
}

impl View for QmClientEngine {
    type V = QmClientEngModel;

    open spec fn view(&self) -> QmClientEngModel {
        QmClientEngModel { last: self.last@, delta: self.delta }
    }
}

/// An engine after the sample `n`: each counter that did not go back is
/// replaced and its delta taken; a counter that went back keeps its value
/// and its previous delta.
pub open spec fn qm_step_engine(c: QmClientEngModel, n: EngineModel) -> QmClientEngModel {
    QmClientEngModel {
        last: EngineModel {
            time: if n.time >= c.last.time { n.time } else { c.last.time },
            cycles: if n.cycles >= c.last.cycles { n.cycles } else { c.last.cycles },
            total_cycles: if n.total_cycles >= c.last.total_cycles {
                n.total_cycles
            } else {
                c.last.total_cycles
            },
            ..c.last
        },
        delta: QmDrmEngineDelta {
            delta_time: if n.time >= c.last.time {
                (n.time - c.last.time) as u64
            } else {
                c.delta.delta_time
            },
            delta_cycles: if n.cycles >= c.last.cycles {
                (n.cycles - c.last.cycles) as u64
            } else {
                c.delta.delta_cycles
            },
            delta_total_cycles: if n.total_cycles >= c.last.total_cycles {
                (n.total_cycles - c.last.total_cycles) as u64
            } else {
                c.delta.delta_total_cycles
            },
        },
    }
}

/// The sample of the engine `c` in the engines `ns`.
pub open spec fn sample_for(ns: Seq<EngineModel>, c: QmClientEngModel) -> EngineModel {
    ns[eng_index(ns, c.last.name)]
}

/// Every engine of the client is in the sample.
pub open spec fn engines_covered(es: Seq<QmClientEngModel>, ns: Seq<EngineModel>) -> bool {
    forall|i: int| 0 <= i < es.len() ==> eng_index(ns, (#[trigger] es[i]).last.name) < ns.len()
}

pub open spec fn qm_next_engines(es: Seq<QmClientEngModel>, ns: Seq<EngineModel>) -> Seq<QmClientEngModel> {
    Seq::new(es.len(), |i: int| qm_step_engine(es[i], sample_for(ns, es[i])))
}

/// The names of a client's engines, in the order the client keeps them.
pub open spec fn qm_eng_names(es: Seq<QmClientEngModel>) -> Seq<Seq<char>> {
    es.map_values(|e: QmClientEngModel| e.last.name)
}

/// The sums, over the client's engines whose counter did not go back, of
/// the counter's new value (saturating at `u64::MAX`).
pub open spec fn qm_acum_of(es: Seq<QmClientEngModel>, ns: Seq<EngineModel>) -> QmDrmEnginesAcum {
    QmDrmEnginesAcum {
        acum_time: sat_sum(Seq::new(es.len(), |i: int| if sample_for(ns, es[i]).time >= es[i].last.time {
            sample_for(ns, es[i]).time
        } else {
            0
        })),
        acum_cycles: sat_sum(Seq::new(es.len(), |i: int| if sample_for(ns, es[i]).cycles >= es[i].last.cycles {
            sample_for(ns, es[i]).cycles
        } else {
            0
        })),
        acum_total_cycles: sat_sum(Seq::new(es.len(), |i: int| if sample_for(ns, es[i]).total_cycles
            >= es[i].last.total_cycles {
            sample_for(ns, es[i]).total_cycles
        } else {
            0
        })),
    }
}

/// A DRM client in the first-generation tracking.
#[derive(Debug)]
pub struct QmDrmClientInfo {
    pub pci_dev: String,
    pub drm_minor: u32,
    pub client_id: u32,
    pub proc: QmProcInfo,
    pub fdinfo_path: String,
    /// The other processes that share the client, with their fdinfo path.
    pub shared_procs: Vec<(QmProcInfo, String)>,
    pub engs: Vec<QmClientEngine>,
    pub engs_acum: QmDrmEnginesAcum,
    pub mem_regions: Vec<QmDrmMemRegion>,
    pub nr_updates: u64,
    pub ms_elapsed: u64,
    pub last_update: u64,
    pub driver: Option<ClientMemDriver>,
}

pub struct QmClientModel {
    pub pci_dev: Seq<char>,
    pub drm_minor: u32,
    pub client_id: u32,
    pub proc: QmProcModel,
    pub fdinfo_path: Seq<char>,
    pub shared_procs: Seq<(QmProcModel, Seq<char>)>,
    pub engs: Seq<QmClientEngModel>,
    pub engs_acum: QmDrmEnginesAcum,
    pub mem_regions: Seq<RegionModel>,
    pub nr_updates: u64,
    pub ms_elapsed: u64,
    pub last_update: u64,
    pub driver: Option<ClientMemDriver>,
}

/// A client after the sample `f`, read for the process `p`: the client's
/// engines (and only those) step, the sums are taken anew, the memory
/// regions replaced and the time since the last sample recorded.
pub open spec fn qm_spec_client_update(c: QmClientModel, p: QmProcModel, f: FdinfoSample) -> QmClientModel {
    QmClientModel {
        proc: p,
        fdinfo_path: f.path,
        engs: qm_next_engines(c.engs, f.model.engines),
        engs_acum: qm_acum_of(c.engs, f.model.engines),
        mem_regions: f.model.mem_regions,
        nr_updates: sat_inc(c.nr_updates),
        ms_elapsed: sat_sub(f.time_sampled, c.last_update),
        last_update: f.time_sampled,
        ..c
    }
}

/// A client first seen in the sample `f`: one engine per engine of the
/// sample, with capacity 1 and zero counters, then the sample taken.
pub open spec fn qm_spec_client_from(p: QmProcModel, f: FdinfoSample) -> QmClientModel {
    qm_spec_client_update(
        QmClientModel {
            pci_dev: f.model.pci_dev,
            drm_minor: f.drm_minor,
            client_id: f.model.client_id,
            proc: p,
            fdinfo_path: Seq::empty(),
            shared_procs: Seq::empty(),
            engs: f.model.engines.map_values(
                |n: EngineModel|
                    QmClientEngModel {
                        last: crate::fdinfo::default_engine(n.name),
                        delta: QmDrmEngineDelta { delta_time: 0, delta_cycles: 0, delta_total_cycles: 0 },
                    },
            ),
            engs_acum: QmDrmEnginesAcum { acum_time: 0, acum_cycles: 0, acum_total_cycles: 0 },
            mem_regions: Seq::empty(),
            nr_updates: 0,
            ms_elapsed: 0,
            last_update: f.time_sampled,
            driver: None,
        },
        p,
        f,
    )
}

/// A sample never renames a client's engines, nor adds or drops one.
pub proof fn lemma_qm_update_keeps_names(c: QmClientModel, p: QmProcModel, f: FdinfoSample)
    ensures
        qm_eng_names(qm_spec_client_update(c, p, f).engs) == qm_eng_names(c.engs),
{
    assert(qm_eng_names(qm_spec_client_update(c, p, f).engs) =~= qm_eng_names(c.engs));
}

/// A client first seen in a sample has the sample's engines, by name and in
/// its order; so when the sample's engine names are distinct (as in every
/// parsed fdinfo), so are the client's.
pub proof fn lemma_qm_from_names(p: QmProcModel, f: FdinfoSample)
    ensures
        qm_eng_names(qm_spec_client_from(p, f).engs) == f.model.engines.map_values(
            |n: EngineModel| n.name,
        ),
        model_wf(f.model) ==> qm_eng_names(qm_spec_client_from(p, f).engs).no_duplicates(),
{
    let ns = f.model.engines;
    let nm = ns.map_values(|n: EngineModel| n.name);
    assert(qm_eng_names(qm_spec_client_from(p, f).engs) =~= nm);
    if model_wf(f.model) {
        assert forall|i: int, j: int| 0 <= i < nm.len() && 0 <= j < nm.len() && i != j implies nm[i]
            != nm[j] by {
            if i < j {
                assert(ns[i].name != ns[j].name);
            } else {
                assert(ns[j].name != ns[i].name);
            }
        }
    }
}

/// What the utilization of engine `name` is computed from: nothing unless the
/// engine is known, the client has had two samples and some engine's time
/// or cycles moved; from cycles when cycles moved, else from busy time.
pub open spec fn qm_spec_eng_utilization(c: QmClientModel, name: Seq<char>) -> EngUtilization {
    let j = qm_eng_index(c.engs, name);
    let acum = c.engs_acum;
    if j >= c.engs.len() {
        EngUtilization::Zero
    } else if c.nr_updates < 2 {
        EngUtilization::Zero
    } else if acum.acum_time == 0 && acum.acum_cycles == 0 {
        EngUtilization::Zero
    } else if acum.acum_cycles > 0 {
        EngUtilization::Cycles {
            delta_cycles: c.engs[j].delta.delta_cycles,
            delta_total_cycles: c.engs[j].delta.delta_total_cycles,
            capacity: c.engs[j].last.capacity,
        }
    } else {
        EngUtilization::Time {
            delta_time: c.engs[j].delta.delta_time,
            ms_elapsed: c.ms_elapsed,
            capacity: c.engs[j].last.capacity,
        }
    }
}

/// First index of the engine named `name`, or `es.len()`.
pub open spec fn qm_eng_index_from(es: Seq<QmClientEngModel>, name: Seq<char>, i: int) -> int
    decreases es.len() - i,
{
    if i < 0 || i >= es.len() {
        es.len() as int
    } else if es[i].last.name == name {
        i
    } else {
        qm_eng_index_from(es, name, i + 1)
    }
}

pub open spec fn qm_eng_index(es: Seq<QmClientEngModel>, name: Seq<char>) -> int {
    qm_eng_index_from(es, name, 0)
}

proof fn lemma_eng_index_le(ns: Seq<EngineModel>, name: Seq<char>, i: int, q: int)
    requires
        0 <= i <= q < ns.len(),
        ns[q].name == name,
    ensures
        eng_index_from(ns, name, i) <= q,
    decreases q - i,
{
    if ns[i].name != name {
        lemma_eng_index_le(ns, name, i + 1, q);
    }
}

proof fn lemma_qm_eng_index_bounds(es: Seq<QmClientEngModel>, name: Seq<char>, i: int)
    requires
        0 <= i <= es.len(),
    ensures
        i <= qm_eng_index_from(es, name, i) <= es.len(),
        qm_eng_index_from(es, name, i) < es.len() ==> es[qm_eng_index_from(es, name, i)].last.name == name,
        forall|k: int| i <= k < qm_eng_index_from(es, name, i) ==> es[k].last.name != name,
    decreases es.len() - i,
{
    if i < es.len() && es[i].last.name != name {
        lemma_qm_eng_index_bounds(es, name, i + 1);
    }
}

/// What a sample does to each engine of a first-generation client: the
/// engine keeps its name and capacity and is stepped with the sample's
/// engine of the same name (the first one). A counter that moved forward or
/// stayed takes the sample's value and its delta is how far it moved; a
/// counter that went back keeps its value and its previous delta.
pub proof fn lemma_qm_update_engine_counters(c: QmClientModel, p: QmProcModel, f: FdinfoSample, i: int)
    requires
        engines_covered(c.engs, f.model.engines),
        0 <= i < c.engs.len(),
    ensures
        ({
            let r = qm_spec_client_update(c, p, f);
            let o = c.engs[i];
            exists|q: int|
                0 <= q < f.model.engines.len() && (#[trigger] f.model.engines[q]).name == o.last.name && (forall|k: int|
                    0 <= k < q ==> (#[trigger] f.model.engines[k]).name != o.last.name) && {
                    let n = f.model.engines[q];
                    &&& r.engs.len() == c.engs.len()
                    &&& r.engs[i].last.name == o.last.name
                    &&& r.engs[i].last.capacity == o.last.capacity
                    &&& r.engs[i].last.time == (if n.time >= o.last.time { n.time } else { o.last.time })
                    &&& r.engs[i].delta.delta_time == (if n.time >= o.last.time {
                        n.time - o.last.time
                    } else {
                        o.delta.delta_time as int
                    })
                    &&& r.engs[i].last.cycles == (if n.cycles >= o.last.cycles { n.cycles } else { o.last.cycles })
                    &&& r.engs[i].delta.delta_cycles == (if n.cycles >= o.last.cycles {
                        n.cycles - o.last.cycles
                    } else {
                        o.delta.delta_cycles as int
                    })
                    &&& r.engs[i].last.total_cycles == (if n.total_cycles >= o.last.total_cycles {
                        n.total_cycles
                    } else {
                        o.last.total_cycles
                    })
                    &&& r.engs[i].delta.delta_total_cycles == (if n.total_cycles >= o.last.total_cycles {
                        n.total_cycles - o.last.total_cycles
                    } else {
                        o.delta.delta_total_cycles as int
                    })
                }
        }),
{
    let ns = f.model.engines;
    let o = c.engs[i];
    lemma_eng_index_from(ns, o.last.name, 0);
    let q = eng_index(ns, o.last.name);
    assert(eng_index(ns, (c.engs[i]).last.name) < ns.len());
    assert(ns[q].name == o.last.name);
}

/// An engine's utilization is told from that engine's own figures: the
/// client has an engine of that name, and the utilization carries its last
/// deltas and its capacity (and, from busy time, the time since the
/// previous sample). An engine the client does not have, and a client seen
/// in fewer than two samples, have none.
pub proof fn lemma_qm_utilization_of_named_engine(c: QmClientModel, name: Seq<char>)
    ensures
        (forall|i: int| 0 <= i < c.engs.len() ==> (#[trigger] c.engs[i]).last.name != name)
            ==> qm_spec_eng_utilization(c, name) == EngUtilization::Zero,
        c.nr_updates < 2 ==> qm_spec_eng_utilization(c, name) == EngUtilization::Zero,
        match qm_spec_eng_utilization(c, name) {
            EngUtilization::Zero => true,
            EngUtilization::Cycles { delta_cycles, delta_total_cycles, capacity } => exists|i: int|
                0 <= i < c.engs.len() && (#[trigger] c.engs[i]).last.name == name && delta_cycles
                    == c.engs[i].delta.delta_cycles && delta_total_cycles == c.engs[i].delta.delta_total_cycles
                    && capacity == c.engs[i].last.capacity,
            EngUtilization::Time { delta_time, ms_elapsed, capacity } => exists|i: int|
                0 <= i < c.engs.len() && (#[trigger] c.engs[i]).last.name == name && delta_time
                    == c.engs[i].delta.delta_time && ms_elapsed == c.ms_elapsed && capacity
                    == c.engs[i].last.capacity,
        },
{
    lemma_qm_eng_index_bounds(c.engs, name, 0);
    let j = qm_eng_index(c.engs, name);
    if j < c.engs.len() {
        assert(c.engs[j].last.name == name);
    }
}

impl QmDrmClientInfo {
    pub open spec fn model(&self) -> QmClientModel {
        QmClientModel {
            pci_dev: self.pci_dev@,
            drm_minor: self.drm_minor,
            client_id: self.client_id,
            proc: self.proc@,
            fdinfo_path: self.fdinfo_path@,
            shared_procs: self.shared_procs@.map_values(|x: (QmProcInfo, String)| (x.0@, x.1@)),
            engs: self.engs@.map_values(|e: QmClientEngine| e@),
            engs_acum: self.engs_acum,
            mem_regions: self.mem_regions@.map_values(|m: QmDrmMemRegion| m@),
            nr_updates: self.nr_updates,
            ms_elapsed: self.ms_elapsed,
            last_update: self.last_update,
            driver: self.driver,
        }
    }

    /// The memory that the client holds, as its driver reports it (nothing
    /// without a driver).
    pub fn mem_info(&self) -> (r: QmDrmClientMemInfo)
        requires
            self.driver matches Some(d) ==> mem_sums_fit(d, self.model().mem_regions),
        ensures
            match self.driver {
                Some(d) => qm_mem_info_is(r, mem_sums(d, self.model().mem_regions)),
                None => r == QmDrmClientMemInfo { smem_used: 0, smem_rss: 0, vram_used: 0, vram_rss: 0 },
            },
    {
        match self.driver {
            Some(d) => qm_client_mem_info(d, &self.mem_regions),
            None => QmDrmClientMemInfo::new(),
        }
    }

    /// Index of the engine named `name` (or the number of engines).
    pub fn find_engine(&self, name: &String) -> (r: usize)
        ensures
            r == qm_eng_index(self.model().engs, name@),
    {
        let ghost es = self.model().engs;
        let mut k: usize = 0;
        while k < self.engs.len()
            invariant
                k <= self.engs@.len(),
                es == self.model().engs,
                qm_eng_index(es, name@) == qm_eng_index_from(es, name@, k as int),
            decreases self.engs@.len() - k,
        {
            assert(es[k as int] == self.engs@[k as int]@);
            if self.engs[k].last.name == *name {
                return k;
            }
            k = k + 1;
        }
        k
    }

    /// What the utilization of the engine named `eng` is computed from.
    pub fn eng_utilization(&self, eng: &String) -> (r: EngUtilization)
        ensures
            r == qm_spec_eng_utilization(self.model(), eng@),
    {
        let j = self.find_engine(eng);
        if j >= self.engs.len() {
            return EngUtilization::Zero;
        }
        let e = &self.engs[j];
        assert(self.model().engs[j as int] == e@);
        if self.nr_updates < 2 {
            return EngUtilization::Zero;
        }
        let acum = self.engs_acum;
        if acum.acum_time == 0 && acum.acum_cycles == 0 {
            return EngUtilization::Zero;
        }
        if acum.acum_cycles > 0 {
            EngUtilization::Cycles {
                delta_cycles: e.delta.delta_cycles,
                delta_total_cycles: e.delta.delta_total_cycles,
                capacity: e.last.capacity,
            }
        } else {
            EngUtilization::Time {
                delta_time: e.delta.delta_time,
                ms_elapsed: self.ms_elapsed,
                capacity: e.last.capacity,
            }
        }
    }

    /// The names of the client's engines, in ascending order.
    pub fn engines(&self) -> (r: Vec<String>)
        ensures
            r@.map_values(|s: String| s@).to_multiset() == self.model().engs.map_values(
                |e: QmClientEngModel| e.last.name,
            ).to_multiset(),
            lex_sorted(r@.map_values(|s: String| s@)),
            qm_eng_names(self.model().engs).no_duplicates() ==> lex_strictly_sorted(
                r@.map_values(|s: String| s@),
            ),
    {
        let ghost es = self.model().engs;
        let mut names: Vec<String> = Vec::new();
        let mut k: usize = 0;
        while k < self.engs.len()
            invariant
                k <= self.engs@.len(),
                es == self.model().engs,
                names@.map_values(|s: String| s@) == es.map_values(
                    |e: QmClientEngModel| e.last.name,
                ).take(k as int),
            decreases self.engs@.len() - k,
        {
            let ghost before = names@;
            let x = self.engs[k].last.name.clone();
            assert(es[k as int] == self.engs@[k as int]@);
            names.push(x);
            proof {
                let nm = es.map_values(|e: QmClientEngModel| e.last.name);
                assert(names@ == before.push(x));
                assert(names@.map_values(|s: String| s@) =~= before.map_values(|s: String| s@).push(
                    x@,
                ));
                assert(nm.take(k + 1) =~= nm.take(k as int).push(nm[k as int]));
            }
            k = k + 1;
        }
        assert(es.map_values(|e: QmClientEngModel| e.last.name).take(k as int) =~= es.map_values(
            |e: QmClientEngModel| e.last.name,
        ));
        let r = sort_strings(names);
        proof {
            if qm_eng_names(es).no_duplicates() {
                lemma_sorted_distinct_strict(r@.map_values(|s: String| s@), qm_eng_names(es));
            }
        }
        r
    }

    /// Sum of the totals of the client's memory regions, saturating at
    /// `u64::MAX`.
    pub fn total_mem(&self) -> (r: u64)
        ensures
            r == sat_sum(self.model().mem_regions.map_values(|m: RegionModel| m.total)),
    {
        let ghost ts = self.model().mem_regions.map_values(|m: RegionModel| m.total);
        let mut tot: u64 = 0;
        let mut k: usize = 0;
        assert(ts.take(0) =~= Seq::<u64>::empty());
        while k < self.mem_regions.len()
            invariant
                k <= self.mem_regions@.len(),
                ts == self.model().mem_regions.map_values(|m: RegionModel| m.total),
                tot == sat_sum(ts.take(k as int)),
            decreases self.mem_regions@.len() - k,
        {
            assert(ts.take(k + 1).drop_last() =~= ts.take(k as int));
            assert(ts.take(k + 1).last() == self.mem_regions@[k as int].total);
            tot = tot.saturating_add(self.mem_regions[k].total);
            k = k + 1;
        }
        assert(ts.take(k as int) =~= ts);
        tot
    }

    /// Whether some engine's time or cycles moved forward in the last
    /// sample, or the client holds memory.
    pub fn is_active(&self) -> (r: bool)
        ensures
            r == (self.engs_acum.acum_time > 0 || self.engs_acum.acum_cycles > 0 || sat_sum(
                self.model().mem_regions.map_values(|m: RegionModel| m.total),
            ) > 0),
    {
        let acum = self.engs_acum;
        if acum.acum_time > 0 || acum.acum_cycles > 0 {
            return true;
        }
        self.total_mem() > 0
    }

    /// Whether each of the client's engines is in `fdi`.
    pub fn engines_in(&self, fdi: &QmDrmFdinfo) -> (r: bool)
        ensures
            r == engines_covered(self.model().engs, fdi.model().engines),
    {
        let ghost es = self.model().engs;
        let ghost ns = fdi.model().engines;
        let mut k: usize = 0;
        while k < self.engs.len()
            invariant
                k <= self.engs@.len(),
                es == self.model().engs,
                ns == fdi.model().engines,
                forall|i: int| 0 <= i < k ==> eng_index(ns, (#[trigger] es[i]).last.name) < ns.len(),
            decreases self.engs@.len() - k,
        {
            assert(es[k as int] == self.engs@[k as int]@);
            let j = fdi_find_engine(fdi, &self.engs[k].last.name);
            if j >= fdi.engines.len() {
                return false;
            }
            k = k + 1;
        }
        true
    }

    /// Takes one more sample: the process `pinfo` and the client's fdinfo
    /// `fdi`, which must have each of the client's engines.
    pub fn update(&mut self, pinfo: QmProcInfo, fdi: QmDrmFdinfo)
        requires
            engines_covered(old(self).model().engs, fdi.model().engines),
        ensures
            final(self).model() == qm_spec_client_update(old(self).model(), pinfo@, qm_sample_of(fdi)),
            qm_eng_names(final(self).model().engs) == qm_eng_names(old(self).model().engs),
    {
        proof {
            lemma_qm_update_keeps_names(self.model(), pinfo@, qm_sample_of(fdi));
        }
        let ghost old_engs = self.model().engs;
        let ghost ns = fdi.model().engines;
        let ghost target = qm_next_engines(old_engs, ns);
        let ghost acum_t = qm_acum_of(old_engs, ns);
        let ghost tt = Seq::new(old_engs.len(), |i: int| if sample_for(ns, old_engs[i]).time >= old_engs[i].last.time {
            sample_for(ns, old_engs[i]).time
        } else {
            0
        });
        let ghost ct = Seq::new(old_engs.len(), |i: int| if sample_for(ns, old_engs[i]).cycles >= old_engs[i].last.cycles {
            sample_for(ns, old_engs[i]).cycles
        } else {
            0
        });
        let ghost tct = Seq::new(old_engs.len(), |i: int| if sample_for(ns, old_engs[i]).total_cycles
            >= old_engs[i].last.total_cycles {
            sample_for(ns, old_engs[i]).total_cycles
        } else {
            0
        });
        let mut nengs: Vec<QmClientEngine> = Vec::new();
        let mut acum = QmDrmEnginesAcum::new();
        let mut i: usize = 0;
        assert(tt.take(0) =~= Seq::<u64>::empty());
        assert(ct.take(0) =~= Seq::<u64>::empty());
        assert(tct.take(0) =~= Seq::<u64>::empty());
        while i < self.engs.len()
            invariant
                i <= self.engs@.len(),
                old_engs == self.model().engs,
                ns == fdi.model().engines,
                engines_covered(old_engs, ns),
                target == qm_next_engines(old_engs, ns),
                tt.len() == old_engs.len() && ct.len() == old_engs.len() && tct.len() == old_engs.len(),
                forall|q: int| 0 <= q < old_engs.len() ==> #[trigger] tt[q] == (if sample_for(ns, old_engs[q]).time >= old_engs[q].last.time {
                    sample_for(ns, old_engs[q]).time
                } else {
                    0
                }),
                forall|q: int| 0 <= q < old_engs.len() ==> #[trigger] ct[q] == (if sample_for(ns, old_engs[q]).cycles >= old_engs[q].last.cycles {
                    sample_for(ns, old_engs[q]).cycles
                } else {
                    0
                }),
                forall|q: int| 0 <= q < old_engs.len() ==> #[trigger] tct[q] == (if sample_for(ns, old_engs[q]).total_cycles >= old_engs[q].last.total_cycles {
                    sample_for(ns, old_engs[q]).total_cycles
                } else {
                    0
                }),
                nengs@.map_values(|e: QmClientEngine| e@) == target.take(i as int),
                acum.acum_time == sat_sum(tt.take(i as int)),
                acum.acum_cycles == sat_sum(ct.take(i as int)),
                acum.acum_total_cycles == sat_sum(tct.take(i as int)),
            decreases self.engs@.len() - i,
        {
            let o = &self.engs[i];
            assert(old_engs[i as int] == o@);
            let j = fdi_find_engine(&fdi, &o.last.name);
            assert(j < fdi.engines@.len());
            let n = &fdi.engines[j];
            assert(ns[j as int] == n@);
            assert(sample_for(ns, old_engs[i as int]) == n@);
            let mut ce = QmClientEngine {
                last: QmDrmEngine {
                    name: o.last.name.clone(),
                    capacity: o.last.capacity,
                    time: o.last.time,
                    cycles: o.last.cycles,
                    total_cycles: o.last.total_cycles,
                },
                delta: o.delta,
            };
            assert(tt.take(i + 1).drop_last() =~= tt.take(i as int));
            assert(ct.take(i + 1).drop_last() =~= ct.take(i as int));
            assert(tct.take(i + 1).drop_last() =~= tct.take(i as int));
            if n.time >= o.last.time {
                acum.acum_time = acum.acum_time.saturating_add(n.time);
                ce.delta.delta_time = n.time - o.last.time;
                ce.last.time = n.time;
            }
            if n.cycles >= o.last.cycles {
                acum.acum_cycles = acum.acum_cycles.saturating_add(n.cycles);
                ce.delta.delta_cycles = n.cycles - o.last.cycles;
                ce.last.cycles = n.cycles;
            }
            if n.total_cycles >= o.last.total_cycles {
                acum.acum_total_cycles = acum.acum_total_cycles.saturating_add(n.total_cycles);
                ce.delta.delta_total_cycles = n.total_cycles - o.last.total_cycles;
                ce.last.total_cycles = n.total_cycles;
            }
            assert(ce@ == target[i as int]);
            let ghost before = nengs@;
            nengs.push(ce);
            proof {
                assert(nengs@ == before.push(ce));
                assert(nengs@.map_values(|e: QmClientEngine| e@) =~= before.map_values(
                    |e: QmClientEngine| e@,
                ).push(ce@));
                assert(target.take(i + 1) =~= target.take(i as int).push(target[i as int]));
            }
            i = i + 1;
        }
        assert(target.take(i as int) =~= target);
        assert(tt.take(i as int) =~= tt);
        assert(ct.take(i as int) =~= ct);
        assert(tct.take(i as int) =~= tct);
        assert(acum == acum_t);
        let QmDrmFdinfo { path, mem_regions, time_sampled, .. } = fdi;
        self.proc = pinfo;
        self.fdinfo_path = path;
        self.engs = nengs;
        self.engs_acum = acum;
        self.mem_regions = mem_regions;
        self.nr_updates = self.nr_updates.saturating_add(1);
        self.ms_elapsed = time_sampled.saturating_sub(self.last_update);
        self.last_update = time_sampled;
    }

    /// Lets `drv` report the client's memory.
    pub fn set_driver(&mut self, drv: ClientMemDriver)
        ensures
            final(self).model() == (QmClientModel { driver: Some(drv), ..old(self).model() }),
    {
        self.driver = Some(drv);
    }

    /// A client first seen in the fdinfo `fdi` of the process `pinfo`.
    pub fn from(pinfo: QmProcInfo, fdi: QmDrmFdinfo) -> (r: QmDrmClientInfo)
        ensures
            r.model() == qm_spec_client_from(pinfo@, qm_sample_of(fdi)),
            fdi.wf() ==> qm_eng_names(r.model().engs).no_duplicates(),
    {
        proof {
            lemma_qm_from_names(pinfo@, qm_sample_of(fdi));
        }
        let ghost ns = fdi.model().engines;
        let ghost fresh = ns.map_values(
            |n: EngineModel|
                QmClientEngModel {
                    last: crate::fdinfo::default_engine(n.name),
                    delta: QmDrmEngineDelta { delta_time: 0, delta_cycles: 0, delta_total_cycles: 0 },
                },
        );
        let mut engs: Vec<QmClientEngine> = Vec::new();
        let mut i: usize = 0;
        while i < fdi.engines.len()
            invariant
                i <= fdi.engines@.len(),
                ns == fdi.model().engines,
                fresh == ns.map_values(
                    |n: EngineModel|
                        QmClientEngModel {
                            last: crate::fdinfo::default_engine(n.name),
                            delta: QmDrmEngineDelta { delta_time: 0, delta_cycles: 0, delta_total_cycles: 0 },
                        },
                ),
                engs@.map_values(|e: QmClientEngine| e@) == fresh.take(i as int),
            decreases fdi.engines@.len() - i,
        {
            let n = &fdi.engines[i];
            assert(ns[i as int] == n@);
            let ce = QmClientEngine { last: QmDrmEngine::new(n.name.as_str()), delta: QmDrmEngineDelta::new() };
            let ghost before = engs@;
            engs.push(ce);
            proof {
                assert(engs@ == before.push(ce));
                assert(engs@.map_values(|e: QmClientEngine| e@) =~= before.map_values(
                    |e: QmClientEngine| e@,
                ).push(ce@));
                assert(fresh.take(i + 1) =~= fresh.take(i as int).push(fresh[i as int]));
            }
            i = i + 1;
        }
        assert(fresh.take(i as int) =~= fresh);
        proof {
            assert forall|q: int| 0 <= q < fresh.len() implies eng_index(ns, (#[trigger] fresh[q]).last.name) < ns.len() by {
                lemma_eng_index_le(ns, ns[q].name, 0, q);
            }
        }
        let mut cli = QmDrmClientInfo {
            pci_dev: fdi.pci_dev.clone(),
            drm_minor: fdi.drm_minor,
            client_id: fdi.client_id,
            proc: pinfo.duplicate(),
            fdinfo_path: String::new(),
            shared_procs: Vec::new(),
            engs,
            engs_acum: QmDrmEnginesAcum::new(),
            mem_regions: Vec::new(),
            nr_updates: 0,
            ms_elapsed: 0,
            last_update: fdi.time_sampled,
            driver: None,
        };
        assert(cli.model().shared_procs =~= Seq::<(QmProcModel, Seq<char>)>::empty());
        assert(cli.model().mem_regions =~= Seq::<RegionModel>::empty());
        cli.update(pinfo, fdi);
        cli
    }
}

/// Index of the engine named `name` in `fdi` (or the number of engines).
fn fdi_find_engine(fdi: &QmDrmFdinfo, name: &String) -> (r: usize)
    ensures
        r == eng_index(fdi.model().engines, name@),
{
    let ghost es = fdi.model().engines;
    let mut k: usize = 0;
    while k < fdi.engines.len()
        invariant
            k <= fdi.engines@.len(),
            es == fdi.model().engines,
            eng_index(es, name@) == eng_index_from(es, name@, k as int),
        decreases fdi.engines@.len() - k,
    {
        assert(es[k as int] == fdi.engines@[k as int]@);
        if fdi.engines[k].name == *name {
            return k;
        }
        k = k + 1;
    }
    k
}

// ---------------------------------------------------------------------------
// The clients of all devices
// ---------------------------------------------------------------------------

/// The clients of one device, in ascending order of DRM minor and client id.
#[derive(Debug)]
pub struct QmDevClients {
    pub dev: String,
    pub clients: Vec<QmDrmClientInfo>,
}

/// The clients of the processes under watch, by PCI device.
#[derive(Debug)]
pub struct QmDrmClients {
    /// The pid whose process tree is watched; empty for all processes.
    pub base_pid: String,
    pub infos: Vec<QmDevClients>,
}

/// What the caller found of one process in one scan.
pub struct QmProcScan {
    pub proc: QmProcInfo,
    pub fdinfos: Vec<QmDrmFdinfo>,
}

/// Key of a client within its device.
pub open spec fn ckey(c: QmDrmClientInfo) -> (u32, u32) {
    (c.drm_minor, c.client_id)
}

pub open spec fn ckey_lt(a: (u32, u32), b: (u32, u32)) -> bool {
    a.0 < b.0 || (a.0 == b.0 && a.1 < b.1)
}

pub open spec fn ckeys(cs: Seq<QmDrmClientInfo>) -> Seq<(u32, u32)> {
    cs.map_values(|c: QmDrmClientInfo| ckey(c))
}

pub open spec fn dev_names(infos: Seq<QmDevClients>) -> Seq<Seq<char>> {
    infos.map_values(|d: QmDevClients| d.dev@)
}

pub open spec fn seq_unique<A>(s: Seq<A>) -> bool {
    forall|i: int, j: int| 0 <= i < j < s.len() ==> s[i] != s[j]
}

/// The clients are in strictly ascending order of key, and belong to `dev`.
pub open spec fn dev_clients_wf(dc: QmDevClients) -> bool {
    &&& forall|i: int, j: int|
        0 <= i < j < dc.clients@.len() ==> ckey_lt(
            ckey(#[trigger] dc.clients@[i]),
            ckey(#[trigger] dc.clients@[j]),
        )
    &&& forall|i: int| 0 <= i < dc.clients@.len() ==> (#[trigger] dc.clients@[i]).pci_dev@ == dc.dev@
}

/// Devices appear once each, and each device's clients are well ordered.
pub open spec fn infos_wf(infos: Seq<QmDevClients>) -> bool {
    &&& seq_unique(dev_names(infos))
    &&& forall|i: int| 0 <= i < infos.len() ==> dev_clients_wf(#[trigger] infos[i])
}

/// The client of device `dev` with DRM minor `minor` and id `id`, if any.
pub open spec fn lookup(infos: Seq<QmDevClients>, dev: Seq<char>, minor: u32, id: u32) -> Option<
    QmDrmClientInfo,
> {
    match dev_names(infos).index_of_first(dev) {
        Some(d) => match ckeys(infos[d].clients@).index_of_first((minor, id)) {
            Some(c) => Some(infos[d].clients@[c]),
            None => None,
        },
        None => None,
    }
}

/// The key of a DRM fdinfo in the client table.
pub open spec fn fdi_key(f: QmDrmFdinfo) -> (Seq<char>, u32, u32) {
    (f.pci_dev@, f.drm_minor, f.client_id)
}

proof fn lemma_index_of_unique<A>(s: Seq<A>, x: A, q: int)
    requires
        seq_unique(s),
        0 <= q < s.len(),
        s[q] == x,
    ensures
        s.index_of_first(x) == Some(q),
{
    s.index_of_first_ensures(x);
    assert(s.contains(x));
    match s.index_of_first(x) {
        Some(i) => {
            if i < q {
                assert(s[i] != s[q]);
            } else if i > q {
                assert(s[q] != x);
            }
        },
        None => {},
    }
}

proof fn lemma_index_of_absent<A>(s: Seq<A>, x: A)
    requires
        forall|i: int| 0 <= i < s.len() ==> s[i] != x,
    ensures
        s.index_of_first(x) is None,
{
    s.index_of_first_ensures(x);
}

proof fn lemma_keys_unique(dc: QmDevClients)
    requires
        dev_clients_wf(dc),
    ensures
        seq_unique(ckeys(dc.clients@)),
{
    let ks = ckeys(dc.clients@);
    assert forall|i: int, j: int| 0 <= i < j < ks.len() implies ks[i] != ks[j] by {
        assert(ckey_lt(ckey(dc.clients@[i]), ckey(dc.clients@[j])));
    }
}

/// `lookup` on a table whose device names are unique and whose device `d`
/// is named `dev`: what device `d`'s clients hold.
proof fn lemma_lookup_at_dev(infos: Seq<QmDevClients>, d: int, minor: u32, id: u32)
    requires
        infos_wf(infos),
        0 <= d < infos.len(),
    ensures
        lookup(infos, infos[d].dev@, minor, id) == (match ckeys(infos[d].clients@).index_of_first(
            (minor, id),
        ) {
            Some(c) => Some(infos[d].clients@[c]),
            None => None::<QmDrmClientInfo>,
        }),
{
    lemma_index_of_unique(dev_names(infos), infos[d].dev@, d);
}

proof fn lemma_lookup_no_dev(infos: Seq<QmDevClients>, dev: Seq<char>, minor: u32, id: u32)
    requires
        forall|i: int| 0 <= i < infos.len() ==> (#[trigger] infos[i]).dev@ != dev,
    ensures
        lookup(infos, dev, minor, id) is None,
{
    assert forall|i: int| 0 <= i < dev_names(infos).len() implies dev_names(infos)[i] != dev by {
        assert(dev_names(infos)[i] == infos[i].dev@);
    }
    lemma_index_of_absent(dev_names(infos), dev);
}

/// A table where only device `d`'s entry changed keeps every lookup of the
/// other devices.
proof fn lemma_lookup_other_dev(
    a: Seq<QmDevClients>,
    b: Seq<QmDevClients>,
    d: int,
    dev: Seq<char>,
    minor: u32,
    id: u32,
)
    requires
        0 <= d < a.len(),
        a.len() == b.len(),
        dev_names(a) == dev_names(b),
        forall|i: int| 0 <= i < a.len() && i != d ==> a[i] == b[i],
        dev != a[d].dev@,
        seq_unique(dev_names(a)),
    ensures
        lookup(a, dev, minor, id) == lookup(b, dev, minor, id),
{
    dev_names(a).index_of_first_ensures(dev);
    match dev_names(a).index_of_first(dev) {
        Some(i) => {
            assert(dev_names(a)[i] == a[i].dev@);
            assert(i != d);
        },
        None => {},
    }
}

/// Within one device's clients: the lookup of a key after the clients
/// changed to `cs2`, when both are well ordered.
proof fn lemma_key_lookup(cs: Seq<QmDrmClientInfo>, k: (u32, u32), q: int)
    requires
        seq_unique(ckeys(cs)),
        0 <= q < cs.len(),
        ckey(cs[q]) == k,
    ensures
        ckeys(cs).index_of_first(k) == Some(q),
{
    assert(ckeys(cs)[q] == k);
    lemma_index_of_unique(ckeys(cs), k, q);
}

proof fn lemma_key_absent(cs: Seq<QmDrmClientInfo>, k: (u32, u32))
    requires
        forall|i: int| 0 <= i < cs.len() ==> ckey(#[trigger] cs[i]) != k,
    ensures
        ckeys(cs).index_of_first(k) is None,
{
    assert forall|i: int| 0 <= i < ckeys(cs).len() implies ckeys(cs)[i] != k by {
        assert(ckeys(cs)[i] == ckey(cs[i]));
    }
    lemma_index_of_absent(ckeys(cs), k);
}

/// Where a key sits among a device's clients, when it is there.
proof fn lemma_key_found(cs: Seq<QmDrmClientInfo>, k: (u32, u32))
    ensures
        ckeys(cs).index_of_first(k) matches Some(c) ==> 0 <= c < cs.len() && ckey(cs[c]) == k,
        ckeys(cs).index_of_first(k) is None ==> forall|i: int|
            0 <= i < cs.len() ==> ckey(#[trigger] cs[i]) != k,
{
    ckeys(cs).index_of_first_ensures(k);
    if ckeys(cs).index_of_first(k) is None {
        assert forall|i: int| 0 <= i < cs.len() implies ckey(#[trigger] cs[i]) != k by {
            assert(ckeys(cs)[i] == ckey(cs[i]));
            if ckey(cs[i]) == k {
                assert(ckeys(cs).contains(k));
            }
        }
    }
}

/// What `lookup` finds is a client of the device asked for, with the key
/// asked for.
proof fn lemma_lookup_props(infos: Seq<QmDevClients>, dev: Seq<char>, minor: u32, id: u32)
    requires
        infos_wf(infos),
    ensures
        lookup(infos, dev, minor, id) matches Some(c) ==> c.pci_dev@ == dev && ckey(c) == (
            minor,
            id,
        ),
{
    dev_names(infos).index_of_first_ensures(dev);
    match dev_names(infos).index_of_first(dev) {
        Some(d) => {
            assert(dev_names(infos)[d] == infos[d].dev@);
            lemma_key_found(infos[d].clients@, (minor, id));
            assert(dev_clients_wf(infos[d]));
        },
        None => {},
    }
}


/// Two tables with the same devices in the same order, and the same client
/// keys for each device, find a client for the same keys.
proof fn lemma_lookup_same_keys(a: Seq<QmDevClients>, b: Seq<QmDevClients>, dev: Seq<char>, minor: u32, id: u32)
    requires
        dev_names(a) == dev_names(b),
        a.len() == b.len(),
        forall|d: int| 0 <= d < a.len() ==> ckeys((#[trigger] a[d]).clients@) == ckeys(b[d].clients@),
    ensures
        (lookup(a, dev, minor, id) is Some) == (lookup(b, dev, minor, id) is Some),
{
    match dev_names(a).index_of_first(dev) {
        Some(d) => {
            dev_names(a).index_of_first_ensures(dev);
            assert(ckeys(a[d].clients@) == ckeys(b[d].clients@));
        },
        None => {},
    }
}

/// In two tables with the same devices and, device by device, the same
/// client keys, a key is found at the same place.
proof fn lemma_lookup_same_place(a: Seq<QmDevClients>, b: Seq<QmDevClients>, dev: Seq<char>, minor: u32, id: u32)
    requires
        dev_names(a) == dev_names(b),
        a.len() == b.len(),
        forall|d: int| 0 <= d < a.len() ==> ckeys((#[trigger] a[d]).clients@) == ckeys(b[d].clients@),
    ensures
        lookup(a, dev, minor, id) is None ==> lookup(b, dev, minor, id) is None,
        lookup(a, dev, minor, id) matches Some(c) ==> (lookup(b, dev, minor, id) matches Some(c2)
            && exists|d: int, q: int|
            0 <= d < a.len() && 0 <= q < a[d].clients@.len() && q < b[d].clients@.len() && a[d].dev@ == dev
                && #[trigger] a[d].clients@[q] == c && b[d].clients@[q] == c2),
{
    dev_names(a).index_of_first_ensures(dev);
    match dev_names(a).index_of_first(dev) {
        Some(d) => {
            assert(dev_names(a)[d] == a[d].dev@);
            assert(ckeys(a[d].clients@) == ckeys(b[d].clients@));
            lemma_key_found(a[d].clients@, (minor, id));
            match ckeys(a[d].clients@).index_of_first((minor, id)) {
                Some(q) => {
                    assert(ckeys(b[d].clients@).len() == b[d].clients@.len());
                },
                None => {},
            }
        },
        None => {},
    }
}

/// An fdinfo read for a process.
pub type QmScanEntry = (QmProcModel, QmDrmFdinfo);

/// The fdinfos `fs` read for the process `p`.
pub open spec fn qm_entries_of(p: QmProcModel, fs: Seq<QmDrmFdinfo>) -> Seq<QmScanEntry> {
    fs.map_values(|f: QmDrmFdinfo| (p, f))
}

/// Every fdinfo of a scan, in the order it was read.
pub open spec fn qm_scan_entries(scans: Seq<QmProcScan>) -> Seq<QmScanEntry>
    decreases scans.len(),
{
    if scans.len() == 0 {
        Seq::empty()
    } else {
        qm_scan_entries(scans.drop_last()) + qm_entries_of(scans.last().proc@, scans.last().fdinfos@)
    }
}

/// The entry is of the client `key`.
pub open spec fn qm_has_key(key: (Seq<char>, u32, u32)) -> spec_fn(QmScanEntry) -> bool {
    |e: QmScanEntry| fdi_key(e.1) == key
}

/// The sharing processes, with their fdinfo paths, of the entries `es`.
pub open spec fn sharers(es: Seq<QmScanEntry>) -> Seq<(QmProcModel, Seq<char>)> {
    es.map_values(|e: QmScanEntry| (e.0, e.1.path@))
}

/// A client as one refresh leaves it, when `occ` (not empty) are the
/// fdinfos of the client read in that refresh, in order, and `prev` the
/// client as it was before: the first fdinfo is the client's sample, taken
/// by the client carried over when it knows all the sample's engines, else
/// by a new client; the processes of the others share the client.
pub open spec fn qm_tracked_client(prev: Option<QmDrmClientInfo>, occ: Seq<QmScanEntry>) -> QmClientModel {
    let p = occ[0].0;
    let f = occ[0].1;
    let base = match prev {
        Some(c) => if engines_covered(c.model().engs, f.model().engines) {
            qm_spec_client_update(c.model(), p, qm_sample_of(f))
        } else {
            qm_spec_client_from(p, qm_sample_of(f))
        },
        None => qm_spec_client_from(p, qm_sample_of(f)),
    };
    QmClientModel { shared_procs: base.shared_procs + sharers(occ.drop_first()), ..base }
}

/// The client `key` of the new table `b` (the previous table now being
/// `tbl_b`) after its fdinfos `occ` were filed into the new table `a` (the
/// previous one being `tbl_a`).
spec fn qm_filed(
    a: Seq<QmDevClients>,
    b: Seq<QmDevClients>,
    tbl_a: Seq<QmDevClients>,
    tbl_b: Seq<QmDevClients>,
    occ: Seq<QmScanEntry>,
    dv: Seq<char>,
    m: u32,
    i: u32,
) -> bool {
    &&& match lookup(a, dv, m, i) {
        Some(c) => lookup(b, dv, m, i) matches Some(c2) && c2.model() == (QmClientModel {
            shared_procs: c.model().shared_procs + sharers(occ),
            ..c.model()
        }),
        None => if occ.len() == 0 {
            lookup(b, dv, m, i) is None
        } else {
            lookup(b, dv, m, i) matches Some(c2) && c2.model() == qm_tracked_client(lookup(tbl_a, dv, m, i), occ)
        },
    }
    &&& lookup(tbl_b, dv, m, i) == if lookup(a, dv, m, i) is None && occ.len() > 0 {
        None::<QmDrmClientInfo>
    } else {
        lookup(tbl_a, dv, m, i)
    }
}

/// The client `key` after the scanned fdinfos of it `occ` were filed into
/// the new table `ninfos`, the previous table `orig` being now `tbl`.
spec fn qm_refresh_step(
    orig: Seq<QmDevClients>,
    ninfos: Seq<QmDevClients>,
    tbl: Seq<QmDevClients>,
    occ: Seq<QmScanEntry>,
    dv: Seq<char>,
    m: u32,
    i: u32,
) -> bool {
    &&& lookup(ninfos, dv, m, i) is Some <==> occ.len() > 0
    &&& lookup(ninfos, dv, m, i) matches Some(c) ==> c.model() == qm_tracked_client(lookup(orig, dv, m, i), occ)
    &&& lookup(tbl, dv, m, i) == if occ.len() > 0 {
        None::<QmDrmClientInfo>
    } else {
        lookup(orig, dv, m, i)
    }
}

proof fn lemma_qm_tracked_push(prev: Option<QmDrmClientInfo>, occ: Seq<QmScanEntry>, e: QmScanEntry)
    requires
        occ.len() > 0,
    ensures
        qm_tracked_client(prev, occ.push(e)) == (QmClientModel {
            shared_procs: qm_tracked_client(prev, occ).shared_procs.push((e.0, e.1.path@)),
            ..qm_tracked_client(prev, occ)
        }),
{
    assert(occ.push(e)[0] == occ[0]);
    assert(occ.push(e).drop_first() =~= occ.drop_first().push(e));
    assert(sharers(occ.push(e).drop_first()) =~= sharers(occ.drop_first()).push((e.0, e.1.path@)));
    let base_sh = qm_tracked_client(prev, occ).shared_procs;
    assert(qm_tracked_client(prev, occ.push(e)).shared_procs =~= base_sh.push((e.0, e.1.path@)));
}

proof fn lemma_qm_tracked_append(prev: Option<QmDrmClientInfo>, a: Seq<QmScanEntry>, b: Seq<QmScanEntry>)
    requires
        a.len() > 0,
    ensures
        qm_tracked_client(prev, a + b) == (QmClientModel {
            shared_procs: qm_tracked_client(prev, a).shared_procs + sharers(b),
            ..qm_tracked_client(prev, a)
        }),
{
    assert((a + b)[0] == a[0]);
    assert((a + b).drop_first() =~= a.drop_first() + b);
    assert(sharers((a + b).drop_first()) =~= sharers(a.drop_first()) + sharers(b));
    assert(qm_tracked_client(prev, a + b).shared_procs =~= qm_tracked_client(prev, a).shared_procs + sharers(b));
}

impl QmDrmClients {
    pub open spec fn wf(&self) -> bool {
        infos_wf(self.infos@)
    }

    /// A table for the process tree of `at_pid`, or for all processes when
    /// `at_pid` is empty.
    pub fn from_pid_tree(at_pid: &str) -> (r: QmDrmClients)
        ensures
            r.base_pid@ == at_pid@,
            r.infos@.len() == 0,
            r.wf(),
    {
        QmDrmClients { base_pid: String::from_str(at_pid), infos: Vec::new() }
    }

    /// Index of the device `dev` in `map` (or the number of devices).
    fn dev_pos(map: &Vec<QmDevClients>, dev: &String) -> (r: usize)
        ensures
            r <= map@.len(),
            r < map@.len() ==> map@[r as int].dev@ == dev@,
            r == map@.len() ==> forall|i: int| 0 <= i < map@.len() ==> (#[trigger] map@[i]).dev@ != dev@,
    {
        let mut k: usize = 0;
        while k < map.len()
            invariant
                k <= map@.len(),
                forall|i: int| 0 <= i < k ==> (#[trigger] map@[i]).dev@ != dev@,
            decreases map@.len() - k,
        {
            if map[k].dev == *dev {
                return k;
            }
            k = k + 1;
        }
        k
    }

    /// Index of the client with key `(minor, id)` in `cs` (or the number of
    /// clients).
    fn key_pos(cs: &Vec<QmDrmClientInfo>, minor: u32, id: u32) -> (r: usize)
        ensures
            r <= cs@.len(),
            r < cs@.len() ==> ckey(cs@[r as int]) == (minor, id),
            r == cs@.len() ==> forall|i: int| 0 <= i < cs@.len() ==> ckey(#[trigger] cs@[i]) != (minor, id),
    {
        let mut k: usize = 0;
        while k < cs.len()
            invariant
                k <= cs@.len(),
                forall|i: int| 0 <= i < k ==> ckey(#[trigger] cs@[i]) != (minor, id),
            decreases cs@.len() - k,
        {
            if cs[k].drm_minor == minor && cs[k].client_id == id {
                return k;
            }
            k = k + 1;
        }
        k
    }

    /// Where the client of device `dev` with key `(minor, id)` sits in
    /// `map`, if it is there.
    fn map_has_client(map: &Vec<QmDevClients>, dev: &String, minor: u32, id: u32) -> (r: Option<
        (usize, usize),
    >)
        requires
            infos_wf(map@),
        ensures
            match r {
                Some((d, c)) => d < map@.len() && c < map@[d as int].clients@.len() && lookup(
                    map@,
                    dev@,
                    minor,
                    id,
                ) == Some(map@[d as int].clients@[c as int]) && map@[d as int].dev@ == dev@
                    && ckey(map@[d as int].clients@[c as int]) == (minor, id),
                None => lookup(map@, dev@, minor, id) is None,
            },
    {
        let d = Self::dev_pos(map, dev);
        if d == map.len() {
            proof {
                lemma_lookup_no_dev(map@, dev@, minor, id);
            }
            return None;
        }
        let c = Self::key_pos(&map[d].clients, minor, id);
        proof {
            lemma_lookup_at_dev(map@, d as int, minor, id);
            lemma_keys_unique(map@[d as int]);
        }
        if c == map[d].clients.len() {
            proof {
                lemma_key_absent(map@[d as int].clients@, (minor, id));
            }
            return None;
        }
        proof {
            lemma_key_lookup(map@[d as int].clients@, (minor, id), c as int);
        }
        Some((d, c))
    }

    /// Takes the client of device `dev` with key `(minor, id)` out of `map`,
    /// if it is there.
    fn map_remove_client(map: &mut Vec<QmDevClients>, dev: &String, minor: u32, id: u32) -> (r:
        Option<QmDrmClientInfo>)
        requires
            infos_wf(old(map)@),
        ensures
            infos_wf(final(map)@),
            r == lookup(old(map)@, dev@, minor, id),
            forall|dv: Seq<char>, m: u32, i: u32|
                #![trigger lookup(final(map)@, dv, m, i)]
                lookup(final(map)@, dv, m, i) == if (dv, m, i) == (dev@, minor, id) {
                    None
                } else {
                    lookup(old(map)@, dv, m, i)
                },
    {
        let ghost a = map@;
        match Self::map_has_client(map, dev, minor, id) {
            None => None,
            Some((d, c)) => {
                let mut dc = map.remove(d);
                let cli = dc.clients.remove(c);
                let ghost dc_old = a[d as int];
                map.insert(d, dc);
                proof {
                    let b = map@;
                    assert(b =~= a.update(d as int, b[d as int]));
                    assert(dev_names(b) =~= dev_names(a));
                    assert(b[d as int].dev@ == dev@);
                    assert(b[d as int].clients@ =~= dc_old.clients@.remove(c as int));
                    assert(dev_clients_wf(b[d as int]));
                    assert(infos_wf(b));
                    lemma_keys_unique(dc_old);
                    lemma_keys_unique(b[d as int]);
                    assert forall|dv: Seq<char>, m: u32, i: u32|
                        #![trigger lookup(b, dv, m, i)]
                        lookup(b, dv, m, i) == if (dv, m, i) == (dev@, minor, id) {
                            None
                        } else {
                            lookup(a, dv, m, i)
                        } by {
                        if dv != dev@ {
                            lemma_lookup_other_dev(a, b, d as int, dv, m, i);
                        } else {
                            lemma_lookup_at_dev(a, d as int, m, i);
                            lemma_lookup_at_dev(b, d as int, m, i);
                            let cs = dc_old.clients@;
                            let ns = b[d as int].clients@;
                            lemma_key_found(cs, (m, i));
                            lemma_key_found(ns, (m, i));
                            if (m, i) == (minor, id) {
                                match ckeys(ns).index_of_first((m, i)) {
                                    Some(q) => {
                                        if q < c {
                                            assert(ns[q] == cs[q]);
                                            assert(ckeys(cs)[q] == ckeys(cs)[c as int]);
                                        } else {
                                            assert(ns[q] == cs[q + 1]);
                                            assert(ckeys(cs)[q + 1] == ckeys(cs)[c as int]);
                                        }
                                    },
                                    None => {},
                                }
                            } else {
                                match ckeys(cs).index_of_first((m, i)) {
                                    Some(q) => {
                                        assert(q != c);
                                        if q < c {
                                            assert(ns[q] == cs[q]);
                                            lemma_key_lookup(ns, (m, i), q);
                                        } else {
                                            assert(ns[q - 1] == cs[q]);
                                            lemma_key_lookup(ns, (m, i), q - 1);
                                        }
                                    },
                                    None => {
                                        assert forall|j: int| 0 <= j < ns.len() implies ckey(
                                            #[trigger] ns[j],
                                        ) != (m, i) by {
                                            if j < c {
                                                assert(ns[j] == cs[j]);
                                            } else {
                                                assert(ns[j] == cs[j + 1]);
                                            }
                                        }
                                        lemma_key_absent(ns, (m, i));
                                    },
                                }
                            }
                        }
                    }
                }
                Some(cli)
            },
        }
    }

    /// Adds `cli`, a client of device `dev` not yet in `map`, keeping each
    /// device's clients in order.
    fn map_insert_client(map: &mut Vec<QmDevClients>, dev: String, cli: QmDrmClientInfo)
        requires
            infos_wf(old(map)@),
            cli.pci_dev@ == dev@,
            lookup(old(map)@, dev@, cli.drm_minor, cli.client_id) is None,
        ensures
            infos_wf(final(map)@),
            forall|dv: Seq<char>, m: u32, i: u32|
                #![trigger lookup(final(map)@, dv, m, i)]
                lookup(final(map)@, dv, m, i) == if (dv, m, i) == (dev@, cli.drm_minor, cli.client_id) {
                    Some(cli)
                } else {
                    lookup(old(map)@, dv, m, i)
                },
    {
        let ghost a = map@;
        let ghost k = (cli.drm_minor, cli.client_id);
        let d = Self::dev_pos(map, &dev);
        if d == map.len() {
            let mut cs: Vec<QmDrmClientInfo> = Vec::new();
            cs.push(cli);
            map.push(QmDevClients { dev, clients: cs });
            proof {
                let b = map@;
                assert(b =~= a.push(b[d as int]));
                assert(dev_names(b) =~= dev_names(a).push(dev@));
                assert(dev_clients_wf(b[d as int]));
                assert(infos_wf(b));
                assert forall|dv: Seq<char>, m: u32, i: u32|
                    #![trigger lookup(b, dv, m, i)]
                    lookup(b, dv, m, i) == if (dv, m, i) == (dev@, k.0, k.1) {
                        Some(cli)
                    } else {
                        lookup(a, dv, m, i)
                    } by {
                    if dv == dev@ {
                        lemma_lookup_at_dev(b, d as int, m, i);
                        lemma_lookup_no_dev(a, dv, m, i);
                        lemma_keys_unique(b[d as int]);
                        lemma_key_found(b[d as int].clients@, (m, i));
                        if (m, i) == k {
                            lemma_key_lookup(b[d as int].clients@, (m, i), 0);
                        }
                    } else {
                        dev_names(a).index_of_first_ensures(dv);
                        dev_names(b).index_of_first_ensures(dv);
                        match dev_names(a).index_of_first(dv) {
                            Some(q) => {
                                assert(dev_names(b)[q] == dv);
                                lemma_index_of_unique(dev_names(b), dv, q);
                            },
                            None => {
                                assert(!dev_names(b).contains(dv)) by {
                                    if dev_names(b).contains(dv) {
                                        let q = choose|q: int| 0 <= q < dev_names(b).len() && dev_names(b)[q] == dv;
                                        assert(q != d);
                                        assert(dev_names(a)[q] == dv);
                                    }
                                }
                            },
                        }
                    }
                }
            }
            return;
        }
        let mut dc = map.remove(d);
        let ghost cs = dc.clients@;
        let mut p: usize = 0;
        while p < dc.clients.len() && (dc.clients[p].drm_minor < cli.drm_minor || (
        dc.clients[p].drm_minor == cli.drm_minor && dc.clients[p].client_id < cli.client_id))
            invariant
                p <= dc.clients@.len(),
                cs == dc.clients@,
                k == (cli.drm_minor, cli.client_id),
                forall|q: int| 0 <= q < p ==> ckey_lt(ckey(#[trigger] cs[q]), k),
            decreases dc.clients@.len() - p,
        {
            p = p + 1;
        }
        proof {
            lemma_lookup_at_dev(a, d as int, k.0, k.1);
            lemma_key_found(cs, k);
        }
        dc.clients.insert(p, cli);
        map.insert(d, dc);
        proof {
            let b = map@;
            let ns = b[d as int].clients@;
            assert(b =~= a.update(d as int, b[d as int]));
            assert(dev_names(b) =~= dev_names(a));
            assert(ns =~= cs.insert(p as int, cli));
            assert(b[d as int].dev@ == dev@);
            assert forall|x: int, y: int| 0 <= x < y < ns.len() implies ckey_lt(
                ckey(#[trigger] ns[x]),
                ckey(#[trigger] ns[y]),
            ) by {
                if y < p {
                    assert(ns[x] == cs[x] && ns[y] == cs[y]);
                } else if y == p {
                    assert(ns[x] == cs[x]);
                } else if x == p {
                    assert(ns[y] == cs[y - 1]);
                    assert(!ckey_lt(ckey(cs[p as int]), k));
                    assert(ckey(cs[p as int]) != k);
                    if y - 1 > p {
                        assert(ckey_lt(ckey(cs[p as int]), ckey(cs[y - 1])));
                    }
                } else if x < p {
                    assert(ns[x] == cs[x] && ns[y] == cs[y - 1]);
                } else {
                    assert(ns[x] == cs[x - 1] && ns[y] == cs[y - 1]);
                }
            }
            assert(dev_clients_wf(b[d as int]));
            assert(infos_wf(b));
            lemma_keys_unique(b[d as int]);
            lemma_keys_unique(a[d as int]);
            assert forall|dv: Seq<char>, m: u32, i: u32|
                #![trigger lookup(b, dv, m, i)]
                lookup(b, dv, m, i) == if (dv, m, i) == (dev@, k.0, k.1) {
                    Some(cli)
                } else {
                    lookup(a, dv, m, i)
                } by {
                if dv != dev@ {
                    lemma_lookup_other_dev(a, b, d as int, dv, m, i);
                } else {
                    lemma_lookup_at_dev(a, d as int, m, i);
                    lemma_lookup_at_dev(b, d as int, m, i);
                    lemma_key_found(cs, (m, i));
                    lemma_key_found(ns, (m, i));
                    if (m, i) == k {
                        lemma_key_lookup(ns, k, p as int);
                    } else {
                        match ckeys(cs).index_of_first((m, i)) {
                            Some(q) => {
                                if q < p {
                                    assert(ns[q] == cs[q]);
                                    lemma_key_lookup(ns, (m, i), q);
                                } else {
                                    assert(ns[q + 1] == cs[q]);
                                    lemma_key_lookup(ns, (m, i), q + 1);
                                }
                            },
                            None => {
                                assert forall|j: int| 0 <= j < ns.len() implies ckey(
                                    #[trigger] ns[j],
                                ) != (m, i) by {
                                    if j < p {
                                        assert(ns[j] == cs[j]);
                                    } else if j > p {
                                        assert(ns[j] == cs[j - 1]);
                                    }
                                }
                                lemma_key_absent(ns, (m, i));
                            },
                        }
                    }
                }
            }
        }
    }


    /// The clients of the device `dev`, in ascending order of DRM minor and
    /// client id.
    pub fn device_clients(&self, dev: &String) -> (r: Option<&Vec<QmDrmClientInfo>>)
        ensures
            match r {
                Some(cs) => exists|d: int|
                    0 <= d < self.infos@.len() && self.infos@[d].dev@ == dev@ && cs
                        == &self.infos@[d].clients,
                None => forall|d: int| 0 <= d < self.infos@.len() ==> (#[trigger] self.infos@[d]).dev@ != dev@,
            },
    {
        let d = Self::dev_pos(&self.infos, dev);
        if d < self.infos.len() {
            Some(&self.infos[d].clients)
        } else {
            None
        }
    }

    /// The devices that have clients, in ascending order.
    pub fn active_devices(&self) -> (r: Vec<String>)
        ensures
            r@.map_values(|s: String| s@).to_multiset() == dev_names(self.infos@).to_multiset(),
            lex_sorted(r@.map_values(|s: String| s@)),
    {
        let ghost ds = dev_names(self.infos@);
        let mut names: Vec<String> = Vec::new();
        let mut k: usize = 0;
        while k < self.infos.len()
            invariant
                k <= self.infos@.len(),
                ds == dev_names(self.infos@),
                names@.map_values(|s: String| s@) == ds.take(k as int),
            decreases self.infos@.len() - k,
        {
            let ghost before = names@;
            let x = self.infos[k].dev.clone();
            names.push(x);
            proof {
                assert(names@ == before.push(x));
                assert(names@.map_values(|s: String| s@) =~= before.map_values(|s: String| s@).push(x@));
                assert(ds.take(k + 1) =~= ds.take(k as int).push(ds[k as int]));
            }
            k = k + 1;
        }
        assert(ds.take(k as int) =~= ds);
        sort_strings(names)
    }

    /// Lets `drv` report the memory of every client of the device `dev`.
    pub fn set_dev_clients_driver(&mut self, dev: &String, drv: ClientMemDriver)
        requires
            old(self).wf(),
        ensures
            final(self).wf(),
            final(self).base_pid == old(self).base_pid,
            dev_names(final(self).infos@) == dev_names(old(self).infos@),
            forall|d: int|
                0 <= d < old(self).infos@.len() ==> (#[trigger] final(self).infos@[d]).clients@.len()
                    == old(self).infos@[d].clients@.len(),
            forall|dv: Seq<char>, m: u32, i: u32|
                #![trigger lookup(final(self).infos@, dv, m, i)]
                (lookup(final(self).infos@, dv, m, i) is Some) == (lookup(old(self).infos@, dv, m, i) is Some),
            forall|d: int, c: int|
                0 <= d < old(self).infos@.len() && 0 <= c < old(self).infos@[d].clients@.len()
                    ==> (#[trigger] final(self).infos@[d].clients@[c]).model() == if old(
                    self,
                ).infos@[d].dev@ == dev@ {
                    QmClientModel { driver: Some(drv), ..old(self).infos@[d].clients@[c].model() }
                } else {
                    old(self).infos@[d].clients@[c].model()
                },
            forall|dv: Seq<char>, m: u32, i: u32|
                #![trigger lookup(final(self).infos@, dv, m, i)]
                match lookup(old(self).infos@, dv, m, i) {
                    Some(c) => lookup(final(self).infos@, dv, m, i) matches Some(c2) && c2.model() == if dv
                        == dev@ {
                        QmClientModel { driver: Some(drv), ..c.model() }
                    } else {
                        c.model()
                    },
                    None => lookup(final(self).infos@, dv, m, i) is None,
                },
    {
        let ghost a0 = self.infos@;
        let d = Self::dev_pos(&self.infos, dev);
        if d == self.infos.len() {
            proof {
                assert forall|dv: Seq<char>, m: u32, i: u32| dv == dev@ implies #[trigger] lookup(a0, dv, m, i) is None by {
                    lemma_lookup_no_dev(a0, dv, m, i);
                }
            }
            return;
        }
        let ghost a = self.infos@;
        let mut dc = self.infos.remove(d);
        let ghost cs = dc.clients@;
        let mut k: usize = 0;
        while k < dc.clients.len()
            invariant
                k <= dc.clients@.len() == cs.len(),
                dc.dev == a[d as int].dev,
                forall|c: int|
                    0 <= c < cs.len() ==> (#[trigger] dc.clients@[c]).model() == if c < k {
                        QmClientModel { driver: Some(drv), ..cs[c].model() }
                    } else {
                        cs[c].model()
                    },
            decreases cs.len() - k,
        {
            let mut cl = dc.clients.remove(k);
            cl.set_driver(drv);
            dc.clients.insert(k, cl);
            k = k + 1;
        }
        self.infos.insert(d, dc);
        proof {
            let b = self.infos@;
            assert(dev_names(b) =~= dev_names(a));
            assert forall|c: int| 0 <= c < cs.len() implies ckey(#[trigger] b[d as int].clients@[c])
                == ckey(cs[c]) && b[d as int].clients@[c].pci_dev@ == cs[c].pci_dev@ by {
                assert(b[d as int].clients@[c].model().drm_minor == cs[c].model().drm_minor);
            }
            assert(dev_clients_wf(a[d as int]));
            assert forall|x: int, y: int| 0 <= x < y < b[d as int].clients@.len() implies ckey_lt(
                ckey(#[trigger] b[d as int].clients@[x]),
                ckey(#[trigger] b[d as int].clients@[y]),
            ) by {
                assert(ckey(b[d as int].clients@[x]) == ckey(cs[x]));
                assert(ckey(b[d as int].clients@[y]) == ckey(cs[y]));
            }
            assert(dev_clients_wf(b[d as int]));
            assert forall|i: int| 0 <= i < b.len() implies dev_clients_wf(#[trigger] b[i]) by {
                if i != d {
                    assert(b[i] == a[i]);
                }
            }
            assert forall|i: int| 0 <= i < a.len() implies ckeys((#[trigger] b[i]).clients@) == ckeys(a[i].clients@) by {
                if i != d {
                    assert(b[i] == a[i]);
                } else {
                    assert(ckeys(b[i].clients@) =~= ckeys(a[i].clients@));
                }
            }
            assert forall|dv: Seq<char>, m: u32, i: u32|
                #![trigger lookup(b, dv, m, i)]
                (lookup(b, dv, m, i) is Some) == (lookup(a, dv, m, i) is Some) by {
                lemma_lookup_same_keys(b, a, dv, m, i);
            }
            assert forall|i: int, c: int|
                0 <= i < a.len() && 0 <= c < a[i].clients@.len() implies (#[trigger] b[i].clients@[c]).model() == if a[i].dev@ == dev@ {
                    QmClientModel { driver: Some(drv), ..a[i].clients@[c].model() }
                } else {
                    a[i].clients@[c].model()
                } by {
                if i != d {
                    assert(b[i] == a[i]);
                    assert(dev_names(a)[i] != dev_names(a)[d as int]);
                }
            }
            assert forall|dv: Seq<char>, m: u32, i: u32|
                #![trigger lookup(b, dv, m, i)]
                match lookup(a, dv, m, i) {
                    Some(c) => lookup(b, dv, m, i) matches Some(c2) && c2.model() == if dv == dev@ {
                        QmClientModel { driver: Some(drv), ..c.model() }
                    } else {
                        c.model()
                    },
                    None => lookup(b, dv, m, i) is None,
                } by {
                lemma_lookup_same_place(a, b, dv, m, i);
                if let Some(c) = lookup(a, dv, m, i) {
                    let (x, q) = choose|x: int, q: int|
                        0 <= x < a.len() && 0 <= q < a[x].clients@.len() && q < b[x].clients@.len() && a[x].dev@ == dv
                            && #[trigger] a[x].clients@[q] == c && b[x].clients@[q] == lookup(b, dv, m, i)->0;
                    assert(b[x].clients@[q].model() == if a[x].dev@ == dev@ {
                        QmClientModel { driver: Some(drv), ..a[x].clients@[q].model() }
                    } else {
                        a[x].clients@[q].model()
                    });
                }
            }
        }
    }

    /// Files the fdinfo `fdi` of the process `nproc` into the new table
    /// `ninfos`: a client already there records one more sharing process;
    /// a client of the previous table moves over with this sample taken (or,
    /// when one of its engines is missing from the sample, starts afresh
    /// from it); any other is a new client.
    fn track_fdinfo(&mut self, ninfos: &mut Vec<QmDevClients>, nproc: &QmProcInfo, fdi: QmDrmFdinfo)
        requires
            infos_wf(old(self).infos@),
            infos_wf(old(ninfos)@),
        ensures
            infos_wf(final(self).infos@),
            infos_wf(final(ninfos)@),
            final(self).base_pid == old(self).base_pid,
            forall|dv: Seq<char>, m: u32, i: u32|
                #![trigger lookup(final(ninfos)@, dv, m, i)]
                #![trigger lookup(final(self).infos@, dv, m, i)]
                (dv, m, i) != fdi_key(fdi) ==> lookup(final(ninfos)@, dv, m, i) == lookup(
                    old(ninfos)@,
                    dv,
                    m,
                    i,
                ) && lookup(final(self).infos@, dv, m, i) == lookup(old(self).infos@, dv, m, i),
            match lookup(old(ninfos)@, fdi.pci_dev@, fdi.drm_minor, fdi.client_id) {
                Some(c) => {
                    &&& final(self).infos == old(self).infos
                    &&& lookup(final(ninfos)@, fdi.pci_dev@, fdi.drm_minor, fdi.client_id) matches Some(c2)
                    &&& c2.model() == (QmClientModel {
                        shared_procs: c.model().shared_procs.push((nproc@, fdi.path@)),
                        ..c.model()
                    })
                },
                None => {
                    &&& lookup(final(self).infos@, fdi.pci_dev@, fdi.drm_minor, fdi.client_id) is None
                    &&& lookup(final(ninfos)@, fdi.pci_dev@, fdi.drm_minor, fdi.client_id) matches Some(c2)
                    &&& c2.model() == match lookup(old(self).infos@, fdi.pci_dev@, fdi.drm_minor, fdi.client_id) {
                        Some(c) => if engines_covered(c.model().engs, fdi.model().engines) {
                            qm_spec_client_update(c.model(), nproc@, qm_sample_of(fdi))
                        } else {
                            qm_spec_client_from(nproc@, qm_sample_of(fdi))
                        },
                        None => qm_spec_client_from(nproc@, qm_sample_of(fdi)),
                    }
                },
            },
    {
        let ghost a = ninfos@;
        let ghost ai = self.infos@;
        let dev = fdi.pci_dev.clone();
        match Self::map_remove_client(ninfos, &dev, fdi.drm_minor, fdi.client_id) {
            Some(mut cli) => {
                proof {
                    lemma_lookup_props(a, dev@, fdi.drm_minor, fdi.client_id);
                }
                let ghost cm = cli.model();
                let ghost sh = cli.shared_procs@;
                let QmDrmFdinfo { path, .. } = fdi;
                let entry = (nproc.duplicate(), path);
                cli.shared_procs.push(entry);
                proof {
                    assert(cli.shared_procs@ == sh.push(entry));
                    assert(cli.model().shared_procs =~= cm.shared_procs.push((nproc@, path@)));
                }
                Self::map_insert_client(ninfos, dev, cli);
            },
            None => {
                match Self::map_remove_client(&mut self.infos, &dev, fdi.drm_minor, fdi.client_id) {
                    Some(mut cli) => {
                        proof {
                            lemma_lookup_props(ai, dev@, fdi.drm_minor, fdi.client_id);
                        }
                        if cli.engines_in(&fdi) {
                            cli.update(nproc.duplicate(), fdi);
                            Self::map_insert_client(ninfos, dev, cli);
                        } else {
                            let ncli = QmDrmClientInfo::from(nproc.duplicate(), fdi);
                            Self::map_insert_client(ninfos, dev, ncli);
                        }
                    },
                    None => {
                        let cli = QmDrmClientInfo::from(nproc.duplicate(), fdi);
                        Self::map_insert_client(ninfos, dev, cli);
                    },
                }
            },
        }
    }

    /// Files the DRM fdinfos `fdinfos` of the process `nproc` into the new
    /// table `ninfos`.
    fn process_fdinfos(&mut self, ninfos: &mut Vec<QmDevClients>, nproc: &QmProcInfo, fdinfos: Vec<QmDrmFdinfo>)
        requires
            infos_wf(old(self).infos@),
            infos_wf(old(ninfos)@),
        ensures
            infos_wf(final(self).infos@),
            infos_wf(final(ninfos)@),
            final(self).base_pid == old(self).base_pid,
            forall|dv: Seq<char>, m: u32, i: u32|
                #![trigger lookup(final(ninfos)@, dv, m, i)]
                lookup(final(ninfos)@, dv, m, i) is Some <==> (lookup(old(ninfos)@, dv, m, i) is Some
                    || exists|j: int| 0 <= j < fdinfos@.len() && fdi_key(#[trigger] fdinfos@[j]) == (dv, m, i)),
            forall|dv: Seq<char>, m: u32, i: u32|
                #![trigger lookup(final(ninfos)@, dv, m, i)]
                qm_filed(
                    old(ninfos)@,
                    final(ninfos)@,
                    old(self).infos@,
                    final(self).infos@,
                    qm_entries_of(nproc@, fdinfos@).filter(qm_has_key((dv, m, i))),
                    dv,
                    m,
                    i,
                ),
    {
        let ghost a = ninfos@;
        let ghost ai = self.infos@;
        proof {
            reveal(Seq::filter);
            assert forall|dv: Seq<char>, m: u32, i: u32|
                #![trigger lookup(a, dv, m, i)]
                qm_filed(a, a, ai, ai, qm_entries_of(nproc@, fdinfos@.take(0)).filter(qm_has_key((dv, m, i))), dv, m, i) by {
                let occ = qm_entries_of(nproc@, fdinfos@.take(0)).filter(qm_has_key((dv, m, i)));
                assert(occ.len() == 0);
                if let Some(c) = lookup(a, dv, m, i) {
                    assert(c.model().shared_procs + sharers(occ) =~= c.model().shared_procs);
                }
            }
        }
        let mut rest = fdinfos;
        let ghost all = rest@;
        let mut k: usize = 0;
        let n0 = rest.len();
        assert(all.len() == n0);
        while rest.len() > 0
            invariant
                k <= all.len() <= usize::MAX,
                rest@ == all.skip(k as int),
                infos_wf(self.infos@),
                infos_wf(ninfos@),
                self.base_pid == old(self).base_pid,
                forall|dv: Seq<char>, m: u32, i: u32|
                    #![trigger lookup(ninfos@, dv, m, i)]
                    lookup(ninfos@, dv, m, i) is Some <==> (lookup(a, dv, m, i) is Some
                        || exists|j: int| 0 <= j < k && fdi_key(#[trigger] all[j]) == (dv, m, i)),
                forall|dv: Seq<char>, m: u32, i: u32|
                    #![trigger lookup(ninfos@, dv, m, i)]
                    qm_filed(
                        a,
                        ninfos@,
                        ai,
                        self.infos@,
                        qm_entries_of(nproc@, all.take(k as int)).filter(qm_has_key((dv, m, i))),
                        dv,
                        m,
                        i,
                    ),
            decreases rest@.len(),
        {
            let ghost before = ninfos@;
            let ghost tbefore = self.infos@;
            let fdi = rest.remove(0);
            assert(fdi == all[k as int]);
            assert(rest@ =~= all.skip(k + 1));
            self.track_fdinfo(ninfos, nproc, fdi);
            proof {
                let e: QmScanEntry = (nproc@, all[k as int]);
                let ek = qm_entries_of(nproc@, all.take(k as int));
                assert(all.take(k + 1) =~= all.take(k as int).push(all[k as int]));
                assert(qm_entries_of(nproc@, all.take(k + 1)) =~= ek.push(e));
                assert forall|dv: Seq<char>, m: u32, i: u32|
                    #![trigger lookup(ninfos@, dv, m, i)]
                    qm_filed(
                        a,
                        ninfos@,
                        ai,
                        self.infos@,
                        qm_entries_of(nproc@, all.take(k + 1)).filter(qm_has_key((dv, m, i))),
                        dv,
                        m,
                        i,
                    ) by {
                    let key = (dv, m, i);
                    let occ = ek.filter(qm_has_key(key));
                    ek.lemma_filter_push(e, qm_has_key(key));
                    assert(qm_filed(a, before, ai, tbefore, occ, dv, m, i));
                    if key == fdi_key(all[k as int]) {
                        assert(qm_has_key(key)(e));
                        let occ2 = occ.push(e);
                        assert(sharers(occ2) =~= sharers(occ).push((e.0, e.1.path@)));
                        match lookup(a, dv, m, i) {
                            Some(c) => {
                                assert(c.model().shared_procs + sharers(occ2) =~= (c.model().shared_procs
                                    + sharers(occ)).push((e.0, e.1.path@)));
                            },
                            None => {
                                if occ.len() == 0 {
                                    assert(occ2 =~= seq![e]);
                                    assert(sharers(occ2.drop_first()) =~= Seq::<(QmProcModel, Seq<char>)>::empty());
                                    let base_sh = qm_tracked_client(lookup(ai, dv, m, i), occ2).shared_procs;
                                    match lookup(ai, dv, m, i) {
                                        Some(c) => {
                                            if engines_covered(c.model().engs, all[k as int].model().engines) {
                                                assert(qm_spec_client_update(c.model(), nproc@, qm_sample_of(all[k as int])).shared_procs
                                                    + sharers(occ2.drop_first()) =~= qm_spec_client_update(c.model(), nproc@, qm_sample_of(all[k as int])).shared_procs);
                                            } else {
                                                assert(qm_spec_client_from(nproc@, qm_sample_of(all[k as int])).shared_procs
                                                    + sharers(occ2.drop_first()) =~= qm_spec_client_from(nproc@, qm_sample_of(all[k as int])).shared_procs);
                                            }
                                        },
                                        None => {
                                            assert(qm_spec_client_from(nproc@, qm_sample_of(all[k as int])).shared_procs
                                                + sharers(occ2.drop_first()) =~= qm_spec_client_from(nproc@, qm_sample_of(all[k as int])).shared_procs);
                                        },
                                    }
                                } else {
                                    lemma_qm_tracked_push(lookup(ai, dv, m, i), occ, e);
                                }
                            },
                        }
                    } else {
                        assert(!qm_has_key(key)(e));
                        assert(lookup(ninfos@, dv, m, i) == lookup(before, dv, m, i));
                        assert(lookup(self.infos@, dv, m, i) == lookup(tbefore, dv, m, i));
                    }
                }
            }
            proof {
                assert forall|dv: Seq<char>, m: u32, i: u32|
                    #![trigger lookup(ninfos@, dv, m, i)]
                    lookup(ninfos@, dv, m, i) is Some <==> (lookup(a, dv, m, i) is Some
                        || exists|j: int| 0 <= j < k + 1 && fdi_key(#[trigger] all[j]) == (dv, m, i)) by {
                    if (dv, m, i) != fdi_key(all[k as int]) {
                        assert(lookup(ninfos@, dv, m, i) == lookup(before, dv, m, i));
                        if exists|j: int| 0 <= j < k + 1 && fdi_key(#[trigger] all[j]) == (dv, m, i) {
                            let j = choose|j: int| 0 <= j < k + 1 && fdi_key(#[trigger] all[j]) == (dv, m, i);
                            assert(j < k);
                        }
                    } else {
                        assert(fdi_key(all[k as int]) == (dv, m, i));
                    }
                }
            }
            k = k + 1;
        }
        assert(all.take(k as int) =~= all);
    }

    /// Rebuilds the client table from one scan of the processes under watch,
    /// `scans`: a client seen before carries its accounting over, one not
    /// seen again leaves the table, and each device's clients come in
    /// ascending order of DRM minor and client id.
    pub fn refresh(&mut self, scans: Vec<QmProcScan>)
        requires
            old(self).wf(),
        ensures
            final(self).wf(),
            final(self).base_pid == old(self).base_pid,
            forall|dv: Seq<char>, m: u32, i: u32|
                #![trigger lookup(final(self).infos@, dv, m, i)]
                lookup(final(self).infos@, dv, m, i) is Some <==> exists|s: int, j: int|
                    0 <= s < scans@.len() && 0 <= j < scans@[s].fdinfos@.len() && fdi_key(
                        #[trigger] scans@[s].fdinfos@[j],
                    ) == (dv, m, i),
            forall|dv: Seq<char>, m: u32, i: u32|
                #![trigger lookup(final(self).infos@, dv, m, i)]
                lookup(final(self).infos@, dv, m, i) matches Some(c) ==> c.model() == qm_tracked_client(
                    lookup(old(self).infos@, dv, m, i),
                    qm_scan_entries(scans@).filter(qm_has_key((dv, m, i))),
                ) && qm_scan_entries(scans@).filter(qm_has_key((dv, m, i))).len() > 0,
    {
        let ghost orig = self.infos@;
        let mut ninfos: Vec<QmDevClients> = Vec::new();
        proof {
            assert forall|dv: Seq<char>, m: u32, i: u32| #![trigger lookup(ninfos@, dv, m, i)] lookup(ninfos@, dv, m, i) is None by {
                lemma_lookup_no_dev(ninfos@, dv, m, i);
            }
            reveal(Seq::filter);
            assert(scans@.take(0).len() == 0);
            assert forall|dv: Seq<char>, m: u32, i: u32|
                #![trigger lookup(ninfos@, dv, m, i)]
                qm_refresh_step(orig, ninfos@, orig, qm_scan_entries(scans@.take(0)).filter(qm_has_key((dv, m, i))), dv, m, i) by {
                lemma_lookup_no_dev(ninfos@, dv, m, i);
            }
        }
        let mut rest = scans;
        let ghost all = rest@;
        let mut k: usize = 0;
        let n0 = rest.len();
        assert(all.len() == n0);
        while rest.len() > 0
            invariant
                k <= all.len() <= usize::MAX,
                rest@ == all.skip(k as int),
                infos_wf(self.infos@),
                infos_wf(ninfos@),
                self.base_pid == old(self).base_pid,
                forall|dv: Seq<char>, m: u32, i: u32|
                    #![trigger lookup(ninfos@, dv, m, i)]
                    lookup(ninfos@, dv, m, i) is Some <==> exists|s: int, j: int|
                        0 <= s < k && 0 <= j < all[s].fdinfos@.len() && fdi_key(#[trigger] all[s].fdinfos@[j]) == (dv, m, i),
                forall|dv: Seq<char>, m: u32, i: u32|
                    #![trigger lookup(ninfos@, dv, m, i)]
                    qm_refresh_step(orig, ninfos@, self.infos@, qm_scan_entries(all.take(k as int)).filter(qm_has_key((dv, m, i))), dv, m, i),
            decreases rest@.len(),
        {
            let ghost before = ninfos@;
            let ghost tbefore = self.infos@;
            let sc = rest.remove(0);
            assert(sc == all[k as int]);
            assert(rest@ =~= all.skip(k + 1));
            let QmProcScan { proc, fdinfos } = sc;
            let ghost fs = fdinfos@;
            let ghost pm = proc@;
            self.process_fdinfos(&mut ninfos, &proc, fdinfos);
            proof {
                let ea = qm_scan_entries(all.take(k as int));
                let eb = qm_entries_of(pm, fs);
                assert(all.take(k + 1).drop_last() =~= all.take(k as int));
                assert(qm_scan_entries(all.take(k + 1)) == ea + eb);
                assert forall|dv: Seq<char>, m: u32, i: u32|
                    #![trigger lookup(ninfos@, dv, m, i)]
                    qm_refresh_step(orig, ninfos@, self.infos@, qm_scan_entries(all.take(k + 1)).filter(qm_has_key((dv, m, i))), dv, m, i) by {
                    let hk = qm_has_key((dv, m, i));
                    let oa = ea.filter(hk);
                    let ob = eb.filter(hk);
                    Seq::<QmScanEntry>::filter_distributes_over_add(ea, eb, hk);
                    assert(qm_refresh_step(orig, before, tbefore, oa, dv, m, i));
                    assert(qm_filed(before, ninfos@, tbefore, self.infos@, ob, dv, m, i));
                    if oa.len() > 0 {
                        lemma_qm_tracked_append(lookup(orig, dv, m, i), oa, ob);
                    } else {
                        assert(oa + ob =~= ob);
                    }
                }
            }
            proof {
                assert forall|dv: Seq<char>, m: u32, i: u32|
                    #![trigger lookup(ninfos@, dv, m, i)]
                    lookup(ninfos@, dv, m, i) is Some <==> exists|s: int, j: int|
                        0 <= s < k + 1 && 0 <= j < all[s].fdinfos@.len() && fdi_key(#[trigger] all[s].fdinfos@[j]) == (dv, m, i) by {
                    if exists|s: int, j: int| 0 <= s < k + 1 && 0 <= j < all[s].fdinfos@.len() && fdi_key(#[trigger] all[s].fdinfos@[j]) == (dv, m, i) {
                        let (s0, j0) = choose|s0: int, j0: int| 0 <= s0 < k + 1 && 0 <= j0 < all[s0].fdinfos@.len() && fdi_key(#[trigger] all[s0].fdinfos@[j0]) == (dv, m, i);
                        if s0 == k {
                            assert(fs[j0] == all[s0].fdinfos@[j0]);
                            assert(fdi_key(fs[j0]) == (dv, m, i));
                        }
                    }
                    if lookup(ninfos@, dv, m, i) is Some && !(lookup(before, dv, m, i) is Some) {
                        let j0 = choose|j0: int| 0 <= j0 < fs.len() && fdi_key(#[trigger] fs[j0]) == (dv, m, i);
                        assert(all[k as int].fdinfos@[j0] == fs[j0]);
                    }
                    if lookup(before, dv, m, i) is Some {
                        let (s0, j0) = choose|s0: int, j0: int| 0 <= s0 < k && 0 <= j0 < all[s0].fdinfos@.len() && fdi_key(#[trigger] all[s0].fdinfos@[j0]) == (dv, m, i);
                        assert(0 <= s0 < k + 1);
                    }
                }
            }
            k = k + 1;
        }
        assert(all.take(k as int) =~= all);
        self.infos = ninfos;
    }

}

} // verus!
