//! DRM fdinfo: the per-client engine and memory-region counters that a DRM
//! file descriptor's `fdinfo` file reports, and their parser.
use vstd::prelude::*;

use crate::devnum::{drm_char_dev_minor, spec_dev_minor, spec_is_drm_char_dev};
use crate::text::{
    chars_of, eq_lit, lemma_prefixes_differ, find2_from, find_char2, is_prefix, line_ranges, parse_uint, spec_lines,
    spec_parse_uint, spec_tokens, starts_with_lit, string_of, token_ranges,
};

verus! {

/// Counters of one engine in a DRM client's fdinfo.
#[derive(Debug, Clone)]
pub struct DrmEngine {
    pub name: String,
    pub capacity: u32,
    pub time: u64,
    pub cycles: u64,
    pub total_cycles: u64,
}

/// Abstract value of a [`DrmEngine`].
pub struct EngineModel {
    pub name: Seq<char>,
    pub capacity: u32,
    pub time: u64,
    pub cycles: u64,
    pub total_cycles: u64,
}

impl View for DrmEngine {
    type V = EngineModel;

    open spec fn view(&self) -> EngineModel {
        EngineModel {
            name: self.name@,
            capacity: self.capacity,
            time: self.time,
            cycles: self.cycles,
            total_cycles: self.total_cycles,
        }
    }
}

pub open spec fn default_engine(name: Seq<char>) -> EngineModel {
    EngineModel { name, capacity: 1, time: 0, cycles: 0, total_cycles: 0 }
}

impl DrmEngine {
    /// A new engine named `eng_name`: capacity 1, all counters 0.
    pub fn new(eng_name: &str) -> (e: DrmEngine)
        ensures
            e@ == default_engine(eng_name@),
    {
        DrmEngine {
            name: String::from_str(eng_name),
            capacity: 1,
            time: 0,
            cycles: 0,
            total_cycles: 0,
        }
    }
}

/// Counters of one memory region in a DRM client's fdinfo (bytes).
#[derive(Debug, Clone)]
pub struct DrmMemRegion {
    pub name: String,
    pub total: u64,
    pub shared: u64,
    pub resident: u64,
    pub purgeable: u64,
    pub active: u64,
}

/// Abstract value of a [`DrmMemRegion`].
pub struct RegionModel {
    pub name: Seq<char>,
    pub total: u64,
    pub shared: u64,
    pub resident: u64,
    pub purgeable: u64,
    pub active: u64,
}

impl View for DrmMemRegion {
    type V = RegionModel;

    open spec fn view(&self) -> RegionModel {
        RegionModel {
            name: self.name@,
            total: self.total,
            shared: self.shared,
            resident: self.resident,
            purgeable: self.purgeable,
            active: self.active,
        }
    }
}

pub open spec fn default_region(name: Seq<char>) -> RegionModel {
    RegionModel { name, total: 0, shared: 0, resident: 0, purgeable: 0, active: 0 }
}

impl DrmMemRegion {
    /// A new memory region named `memreg_name` with all counters 0.
    pub fn new(memreg_name: &str) -> (r: DrmMemRegion)
        ensures
            r@ == default_region(memreg_name@),
    {
        DrmMemRegion {
            name: String::from_str(memreg_name),
            total: 0,
            shared: 0,
            resident: 0,
            purgeable: 0,
            active: 0,
        }
    }
}

/// Which engine counter an fdinfo key sets.
#[derive(Debug, Clone, Copy, PartialEq, Eq, Structural)]
pub enum EngKvType {
    KvTime,
    KvCapacity,
    KvCycles,
    KvTotCycles,
}

/// Which memory-region counter an fdinfo key sets.
#[derive(Debug, Clone, Copy, PartialEq, Eq, Structural)]
pub enum MemRegKvType {
    KvTotal,
    KvShared,
    KvResident,
    KvPurgeable,
    KvActive,
}

/// Why an fdinfo text was refused.
#[derive(Debug, Clone, Copy, PartialEq, Eq, Structural)]
pub enum FdinfoError {
    /// A line without the `":\t"` separator.
    MissingSeparator,
    /// A counter key whose value has no number at all.
    MissingValue,
    /// A value that is not a number of the counter's type.
    InvalidNumber,
    /// A memory amount whose byte count does not fit in 64 bits.
    ValueOverflow,
}

/// The parsed contents of one DRM client's fdinfo.
#[derive(Debug, Clone)]
pub struct DrmFdinfo {
    pub pci_dev: String,
    pub drm_minor: u32,
    pub client_id: u32,
    pub path: String,
    pub engines: Vec<DrmEngine>,
    pub mem_regions: Vec<DrmMemRegion>,
    /// Monotonic time (ms) at which the fdinfo was read.
    pub time_sampled: u64,
}

/// What the fdinfo lines determine: the PCI device, the client id and the
/// engines and memory regions in order of first appearance.
pub struct FdinfoModel {
    pub pci_dev: Seq<char>,
    pub client_id: u32,
    pub engines: Seq<EngineModel>,
    pub mem_regions: Seq<RegionModel>,
}

pub open spec fn empty_fdinfo_model() -> FdinfoModel {
    FdinfoModel {
        pci_dev: Seq::empty(),
        client_id: 0,
        engines: Seq::empty(),
        mem_regions: Seq::empty(),
    }
}

impl DrmFdinfo {
    /// Engine names are distinct, and so are memory region names.
    pub open spec fn wf(&self) -> bool {
        model_wf(self.model())
    }

    pub open spec fn model(&self) -> FdinfoModel {
        FdinfoModel {
            pci_dev: self.pci_dev@,
            client_id: self.client_id,
            engines: self.engines@.map_values(|e: DrmEngine| e@),
            mem_regions: self.mem_regions@.map_values(|r: DrmMemRegion| r@),
        }
    }
}

// ---------------------------------------------------------------------------
// Specification of the parser
// ---------------------------------------------------------------------------

/// First index at or after `i` of the engine named `name` (or `es.len()`).
pub open spec fn eng_index_from(es: Seq<EngineModel>, name: Seq<char>, i: int) -> int
    decreases es.len() - i,
{
    if i < 0 || i >= es.len() {
        es.len() as int
    } else if es[i].name == name {
        i
    } else {
        eng_index_from(es, name, i + 1)
    }
}

pub open spec fn eng_index(es: Seq<EngineModel>, name: Seq<char>) -> int {
    eng_index_from(es, name, 0)
}

/// The search for engine `name` from `i` stops at it, or at the end, past
/// engines of other names only.
pub proof fn lemma_eng_index_from(es: Seq<EngineModel>, name: Seq<char>, i: int)
    requires
        0 <= i <= es.len(),
    ensures
        i <= eng_index_from(es, name, i) <= es.len(),
        eng_index_from(es, name, i) < es.len() ==> es[eng_index_from(es, name, i)].name == name,
        forall|k: int| i <= k < eng_index_from(es, name, i) ==> es[k].name != name,
    decreases es.len() - i,
{
    if i < es.len() && es[i].name != name {
        lemma_eng_index_from(es, name, i + 1);
    }
}

pub open spec fn set_engine_field(e: EngineModel, kind: EngKvType, val: u64) -> EngineModel {
    match kind {
        EngKvType::KvCapacity => EngineModel { capacity: val as u32, ..e },
        EngKvType::KvTime => EngineModel { time: val, ..e },
        EngKvType::KvCycles => EngineModel { cycles: val, ..e },
        EngKvType::KvTotCycles => EngineModel { total_cycles: val, ..e },
    }
}

/// The engines after one counter of the engine `name` is set (the engine is
/// added with default counters when it is not there yet).
pub open spec fn engine_set(
    es: Seq<EngineModel>,
    name: Seq<char>,
    kind: EngKvType,
    val: u64,
) -> Seq<EngineModel> {
    let j = eng_index(es, name);
    let es2 = if j >= es.len() {
        es.push(default_engine(name))
    } else {
        es
    };
    es2.update(j, set_engine_field(es2[j], kind, val))
}

/// First index at or after `i` of the region named `name` (or `rs.len()`).
pub open spec fn reg_index_from(rs: Seq<RegionModel>, name: Seq<char>, i: int) -> int
    decreases rs.len() - i,
{
    if i < 0 || i >= rs.len() {
        rs.len() as int
    } else if rs[i].name == name {
        i
    } else {
        reg_index_from(rs, name, i + 1)
    }
}

pub open spec fn reg_index(rs: Seq<RegionModel>, name: Seq<char>) -> int {
    reg_index_from(rs, name, 0)
}

/// The search for memory region `name` from `i` stops at it, or at the end,
/// past regions of other names only.
pub proof fn lemma_reg_index_from(rs: Seq<RegionModel>, name: Seq<char>, i: int)
    requires
        0 <= i <= rs.len(),
    ensures
        i <= reg_index_from(rs, name, i) <= rs.len(),
        reg_index_from(rs, name, i) < rs.len() ==> rs[reg_index_from(rs, name, i)].name == name,
        forall|k: int| i <= k < reg_index_from(rs, name, i) ==> rs[k].name != name,
    decreases rs.len() - i,
{
    if i < rs.len() && rs[i].name != name {
        lemma_reg_index_from(rs, name, i + 1);
    }
}

pub open spec fn set_region_field(r: RegionModel, kind: MemRegKvType, val: u64) -> RegionModel {
    match kind {
        MemRegKvType::KvTotal => RegionModel { total: val, ..r },
        MemRegKvType::KvShared => RegionModel { shared: val, ..r },
        MemRegKvType::KvResident => RegionModel { resident: val, ..r },
        MemRegKvType::KvPurgeable => RegionModel { purgeable: val, ..r },
        MemRegKvType::KvActive => RegionModel { active: val, ..r },
    }
}

/// The regions after one counter of the region `name` is set (the region is
/// added with zero counters when it is not there yet).
pub open spec fn region_set(
    rs: Seq<RegionModel>,
    name: Seq<char>,
    kind: MemRegKvType,
    val: u64,
) -> Seq<RegionModel> {
    let j = reg_index(rs, name);
    let rs2 = if j >= rs.len() {
        rs.push(default_region(name))
    } else {
        rs
    };
    rs2.update(j, set_region_field(rs2[j], kind, val))
}

/// Bytes per unit of a memory amount's unit suffix: `KiB`, `MiB`, `GiB`,
/// anything else counts as bytes.
pub open spec fn spec_mul_from_unit(unit: Seq<char>) -> u64 {
    if unit == "KiB"@ {
        1024
    } else if unit == "MiB"@ {
        0x10_0000
    } else if unit == "GiB"@ {
        0x4000_0000
    } else {
        1
    }
}

/// The byte count that a memory amount value (`"<number> [unit]"`) gives.
pub open spec fn spec_mem_value(v: Seq<char>) -> Result<u64, FdinfoError> {
    let toks = spec_tokens(v);
    if toks.len() == 0 {
        Err(FdinfoError::MissingValue)
    } else {
        match spec_parse_uint(toks[0], u64::MAX as int) {
            None => Err(FdinfoError::InvalidNumber),
            Some(nr) => {
                let mul = if toks.len() == 2 {
                    spec_mul_from_unit(toks[1])
                } else {
                    1
                };
                if nr * mul > u64::MAX {
                    Err(FdinfoError::ValueOverflow)
                } else {
                    Ok((nr * mul) as u64)
                }
            },
        }
    }
}

/// The value of an engine counter line: the capacity is the whole value, the
/// busy time the first whitespace token (its `ns` unit ignored), the cycle
/// counts the whole value.
pub open spec fn spec_engine_value(kind: EngKvType, v: Seq<char>) -> Result<u64, FdinfoError> {
    match kind {
        EngKvType::KvCapacity => match spec_parse_uint(v, u32::MAX as int) {
            Some(x) => Ok(x as u64),
            None => Err(FdinfoError::InvalidNumber),
        },
        EngKvType::KvTime => {
            let toks = spec_tokens(v);
            if toks.len() == 0 {
                Err(FdinfoError::MissingValue)
            } else {
                match spec_parse_uint(toks[0], u64::MAX as int) {
                    Some(x) => Ok(x as u64),
                    None => Err(FdinfoError::InvalidNumber),
                }
            }
        },
        _ => match spec_parse_uint(v, u64::MAX as int) {
            Some(x) => Ok(x as u64),
            None => Err(FdinfoError::InvalidNumber),
        },
    }
}

pub open spec fn apply_engine(
    m: FdinfoModel,
    kind: EngKvType,
    name: Seq<char>,
    v: Seq<char>,
) -> Result<FdinfoModel, FdinfoError> {
    match spec_engine_value(kind, v) {
        Ok(x) => Ok(FdinfoModel { engines: engine_set(m.engines, name, kind, x), ..m }),
        Err(e) => Err(e),
    }
}

pub open spec fn apply_region(
    m: FdinfoModel,
    kind: MemRegKvType,
    name: Seq<char>,
    v: Seq<char>,
) -> Result<FdinfoModel, FdinfoError> {
    match spec_mem_value(v) {
        Ok(x) => Ok(FdinfoModel { mem_regions: region_set(m.mem_regions, name, kind, x), ..m }),
        Err(e) => Err(e),
    }
}

/// The key of an fdinfo line: what precedes the first `":\t"`.
pub open spec fn line_key(line: Seq<char>) -> Seq<char> {
    line.take(find2_from(line, 0, ':', '\t'))
}

/// The value of an fdinfo line: what follows the first `":\t"`, up to the
/// next `":\t"`.
pub open spec fn line_value(line: Seq<char>) -> Seq<char> {
    let rest = line.skip(find2_from(line, 0, ':', '\t') + 2);
    rest.take(find2_from(rest, 0, ':', '\t'))
}

/// The effect of one fdinfo line. Keys that do not start with `drm-` and
/// unknown `drm-` keys leave the model as it is; the engine and region keys
/// are tried in this order, so that `drm-engine-capacity-` is not read as an
/// engine time and `drm-total-cycles-` not as a region total.
pub open spec fn apply_line(m: FdinfoModel, line: Seq<char>) -> Result<FdinfoModel, FdinfoError> {
    if find2_from(line, 0, ':', '\t') >= line.len() {
        Err(FdinfoError::MissingSeparator)
    } else {
        let k = line_key(line);
        let v = line_value(line);
        if !is_prefix("drm-"@, k) {
            Ok(m)
        } else if is_prefix("drm-pdev"@, k) {
            Ok(FdinfoModel { pci_dev: m.pci_dev + v, ..m })
        } else if is_prefix("drm-client-id"@, k) {
            match spec_parse_uint(v, u32::MAX as int) {
                Some(x) => Ok(FdinfoModel { client_id: x as u32, ..m }),
                None => Err(FdinfoError::InvalidNumber),
            }
        } else if is_prefix("drm-engine-capacity-"@, k) {
            apply_engine(m, EngKvType::KvCapacity, k.skip("drm-engine-capacity-"@.len() as int), v)
        } else if is_prefix("drm-engine-"@, k) {
            apply_engine(m, EngKvType::KvTime, k.skip("drm-engine-"@.len() as int), v)
        } else if is_prefix("drm-cycles-"@, k) {
            apply_engine(m, EngKvType::KvCycles, k.skip("drm-cycles-"@.len() as int), v)
        } else if is_prefix("drm-total-cycles-"@, k) {
            apply_engine(m, EngKvType::KvTotCycles, k.skip("drm-total-cycles-"@.len() as int), v)
        } else if is_prefix("drm-total-"@, k) {
            apply_region(m, MemRegKvType::KvTotal, k.skip("drm-total-"@.len() as int), v)
        } else if is_prefix("drm-shared-"@, k) {
            apply_region(m, MemRegKvType::KvShared, k.skip("drm-shared-"@.len() as int), v)
        } else if is_prefix("drm-resident-"@, k) {
            apply_region(m, MemRegKvType::KvResident, k.skip("drm-resident-"@.len() as int), v)
        } else if is_prefix("drm-purgeable-"@, k) {
            apply_region(m, MemRegKvType::KvPurgeable, k.skip("drm-purgeable-"@.len() as int), v)
        } else if is_prefix("drm-active-"@, k) {
            apply_region(m, MemRegKvType::KvActive, k.skip("drm-active-"@.len() as int), v)
        } else {
            Ok(m)
        }
    }
}

/// Setting one counter of the memory region `name` sets, in that region
/// only, the counter that `kind` names: `KvTotal` its total, `KvShared` its
/// shared size, `KvResident` its resident size, `KvPurgeable` its
/// purgeable size and `KvActive` its active size; its other counters and
/// every other region stay as they were. A region not there yet is added
/// at the end, its other counters 0.
pub proof fn lemma_region_set_counter(rs: Seq<RegionModel>, name: Seq<char>, kind: MemRegKvType, val: u64)
    ensures
        ({
            let r2 = region_set(rs, name, kind, val);
            let counted = |b: RegionModel, a: RegionModel|
                {
                    &&& a.name == name
                    &&& a.total == (if kind == MemRegKvType::KvTotal { val } else { b.total })
                    &&& a.shared == (if kind == MemRegKvType::KvShared { val } else { b.shared })
                    &&& a.resident == (if kind == MemRegKvType::KvResident { val } else { b.resident })
                    &&& a.purgeable == (if kind == MemRegKvType::KvPurgeable { val } else { b.purgeable })
                    &&& a.active == (if kind == MemRegKvType::KvActive { val } else { b.active })
                };
            ||| (exists|j: int|
                0 <= j < rs.len() && (#[trigger] rs[j]).name == name && r2.len() == rs.len() && counted(rs[j], r2[j])
                    && forall|q: int| 0 <= q < rs.len() && q != j ==> #[trigger] r2[q] == rs[q])
            ||| ((forall|q: int| 0 <= q < rs.len() ==> (#[trigger] rs[q]).name != name) && r2.len() == rs.len() + 1
                && counted(
                RegionModel { name, total: 0, shared: 0, resident: 0, purgeable: 0, active: 0 },
                r2[rs.len() as int],
            ) && forall|q: int| 0 <= q < rs.len() ==> #[trigger] r2[q] == rs[q])
        }),
{
    lemma_reg_index_from(rs, name, 0);
    let j = reg_index(rs, name);
    if j < rs.len() {
        assert(rs[j].name == name);
    }
}

/// Setting one counter of the engine `name` sets, in that engine only, the
/// counter that `kind` names: `KvCapacity` its capacity, `KvTime` its busy
/// time, `KvCycles` its cycles and `KvTotCycles` its total cycles; its
/// other counters and every other engine stay as they were. An engine not
/// there yet is added at the end with capacity 1 and its other counters 0.
pub proof fn lemma_engine_set_counter(es: Seq<EngineModel>, name: Seq<char>, kind: EngKvType, val: u64)
    ensures
        ({
            let e2 = engine_set(es, name, kind, val);
            let counted = |b: EngineModel, a: EngineModel|
                {
                    &&& a.name == name
                    &&& a.capacity == (if kind == EngKvType::KvCapacity { val as u32 } else { b.capacity })
                    &&& a.time == (if kind == EngKvType::KvTime { val } else { b.time })
                    &&& a.cycles == (if kind == EngKvType::KvCycles { val } else { b.cycles })
                    &&& a.total_cycles == (if kind == EngKvType::KvTotCycles { val } else { b.total_cycles })
                };
            ||| (exists|j: int|
                0 <= j < es.len() && (#[trigger] es[j]).name == name && e2.len() == es.len() && counted(es[j], e2[j])
                    && forall|q: int| 0 <= q < es.len() && q != j ==> #[trigger] e2[q] == es[q])
            ||| ((forall|q: int| 0 <= q < es.len() ==> (#[trigger] es[q]).name != name) && e2.len() == es.len() + 1
                && counted(
                EngineModel { name, capacity: 1, time: 0, cycles: 0, total_cycles: 0 },
                e2[es.len() as int],
            ) && forall|q: int| 0 <= q < es.len() ==> #[trigger] e2[q] == es[q])
        }),
{
    lemma_eng_index_from(es, name, 0);
    let j = eng_index(es, name);
    if j < es.len() {
        assert(es[j].name == name);
    }
}

/// Which counter an fdinfo line sets, by its key: `drm-engine-capacity-<e>`
/// the capacity of engine `e`, `drm-engine-<e>` its busy time,
/// `drm-cycles-<e>` its cycles, `drm-total-cycles-<e>` its total cycles;
/// `drm-total-<r>` the total of region `r`, `drm-shared-<r>` its shared
/// size, `drm-resident-<r>` its resident size, `drm-purgeable-<r>` its
/// purgeable size and `drm-active-<r>` its active size.
pub proof fn lemma_line_key_sets(m: FdinfoModel, line: Seq<char>)
    requires
        find2_from(line, 0, ':', '\t') < line.len(),
    ensures
        ({
            let k = line_key(line);
            let v = line_value(line);
            &&& is_prefix("drm-engine-capacity-"@, k) ==> apply_line(m, line) == apply_engine(
                m,
                EngKvType::KvCapacity,
                k.skip(20),
                v,
            )
            &&& is_prefix("drm-engine-"@, k) && !is_prefix("drm-engine-capacity-"@, k) ==> apply_line(m, line)
                == apply_engine(m, EngKvType::KvTime, k.skip(11), v)
            &&& is_prefix("drm-cycles-"@, k) ==> apply_line(m, line) == apply_engine(
                m,
                EngKvType::KvCycles,
                k.skip(11),
                v,
            )
            &&& is_prefix("drm-total-cycles-"@, k) ==> apply_line(m, line) == apply_engine(
                m,
                EngKvType::KvTotCycles,
                k.skip(17),
                v,
            )
            &&& is_prefix("drm-total-"@, k) && !is_prefix("drm-total-cycles-"@, k) ==> apply_line(m, line)
                == apply_region(m, MemRegKvType::KvTotal, k.skip(10), v)
            &&& is_prefix("drm-shared-"@, k) ==> apply_line(m, line) == apply_region(
                m,
                MemRegKvType::KvShared,
                k.skip(11),
                v,
            )
            &&& is_prefix("drm-resident-"@, k) ==> apply_line(m, line) == apply_region(
                m,
                MemRegKvType::KvResident,
                k.skip(13),
                v,
            )
            &&& is_prefix("drm-purgeable-"@, k) ==> apply_line(m, line) == apply_region(
                m,
                MemRegKvType::KvPurgeable,
                k.skip(14),
                v,
            )
            &&& is_prefix("drm-active-"@, k) ==> apply_line(m, line) == apply_region(
                m,
                MemRegKvType::KvActive,
                k.skip(11),
                v,
            )
        }),
{
    reveal_strlit("drm-");
    reveal_strlit("drm-pdev");
    reveal_strlit("drm-client-id");
    reveal_strlit("drm-engine-capacity-");
    reveal_strlit("drm-engine-");
    reveal_strlit("drm-cycles-");
    reveal_strlit("drm-total-cycles-");
    reveal_strlit("drm-total-");
    reveal_strlit("drm-shared-");
    reveal_strlit("drm-resident-");
    reveal_strlit("drm-purgeable-");
    reveal_strlit("drm-active-");
    let k = line_key(line);
    let drm = "drm-"@;
    let pdev = "drm-pdev"@;
    let cid = "drm-client-id"@;
    let ecap = "drm-engine-capacity-"@;
    let eng = "drm-engine-"@;
    let cyc = "drm-cycles-"@;
    let tcyc = "drm-total-cycles-"@;
    let tot = "drm-total-"@;
    let shr = "drm-shared-"@;
    let res = "drm-resident-"@;
    let pur = "drm-purgeable-"@;
    let act = "drm-active-"@;
    // every one of these keys starts with "drm-"
    assert forall|p: Seq<char>| p.len() >= 4 && p.take(4) == drm && #[trigger] is_prefix(p, k) implies is_prefix(
        drm,
        k,
    ) by {
        assert(k.take(4) == k.take(p.len() as int).take(4));
    }
    if is_prefix(ecap, k) {
        assert(ecap.take(4) =~= drm);
        lemma_prefixes_differ(ecap, pdev, k, 4);
        lemma_prefixes_differ(ecap, cid, k, 4);
    }
    if is_prefix(eng, k) {
        assert(eng.take(4) =~= drm);
        lemma_prefixes_differ(eng, pdev, k, 4);
        lemma_prefixes_differ(eng, cid, k, 4);
    }
    if is_prefix(cyc, k) {
        assert(cyc.take(4) =~= drm);
        lemma_prefixes_differ(cyc, pdev, k, 4);
        lemma_prefixes_differ(cyc, cid, k, 5);
        lemma_prefixes_differ(cyc, ecap, k, 4);
        lemma_prefixes_differ(cyc, eng, k, 4);
    }
    if is_prefix(tcyc, k) {
        assert(tcyc.take(4) =~= drm);
        lemma_prefixes_differ(tcyc, pdev, k, 4);
        lemma_prefixes_differ(tcyc, cid, k, 4);
        lemma_prefixes_differ(tcyc, ecap, k, 4);
        lemma_prefixes_differ(tcyc, eng, k, 4);
        lemma_prefixes_differ(tcyc, cyc, k, 4);
    }
    if is_prefix(tot, k) {
        assert(tot.take(4) =~= drm);
        lemma_prefixes_differ(tot, pdev, k, 4);
        lemma_prefixes_differ(tot, cid, k, 4);
        lemma_prefixes_differ(tot, ecap, k, 4);
        lemma_prefixes_differ(tot, eng, k, 4);
        lemma_prefixes_differ(tot, cyc, k, 4);
    }
    if is_prefix(shr, k) {
        assert(shr.take(4) =~= drm);
        lemma_prefixes_differ(shr, pdev, k, 4);
        lemma_prefixes_differ(shr, cid, k, 4);
        lemma_prefixes_differ(shr, ecap, k, 4);
        lemma_prefixes_differ(shr, eng, k, 4);
        lemma_prefixes_differ(shr, cyc, k, 4);
        lemma_prefixes_differ(shr, tcyc, k, 4);
        lemma_prefixes_differ(shr, tot, k, 4);
    }
    if is_prefix(res, k) {
        assert(res.take(4) =~= drm);
        lemma_prefixes_differ(res, pdev, k, 4);
        lemma_prefixes_differ(res, cid, k, 4);
        lemma_prefixes_differ(res, ecap, k, 4);
        lemma_prefixes_differ(res, eng, k, 4);
        lemma_prefixes_differ(res, cyc, k, 4);
        lemma_prefixes_differ(res, tcyc, k, 4);
        lemma_prefixes_differ(res, tot, k, 4);
        lemma_prefixes_differ(res, shr, k, 4);
    }
    if is_prefix(pur, k) {
        assert(pur.take(4) =~= drm);
        lemma_prefixes_differ(pur, pdev, k, 5);
        lemma_prefixes_differ(pur, cid, k, 4);
        lemma_prefixes_differ(pur, ecap, k, 4);
        lemma_prefixes_differ(pur, eng, k, 4);
        lemma_prefixes_differ(pur, cyc, k, 4);
        lemma_prefixes_differ(pur, tcyc, k, 4);
        lemma_prefixes_differ(pur, tot, k, 4);
        lemma_prefixes_differ(pur, shr, k, 4);
        lemma_prefixes_differ(pur, res, k, 4);
    }
    if is_prefix(act, k) {
        assert(act.take(4) =~= drm);
        lemma_prefixes_differ(act, pdev, k, 4);
        lemma_prefixes_differ(act, cid, k, 4);
        lemma_prefixes_differ(act, ecap, k, 4);
        lemma_prefixes_differ(act, eng, k, 4);
        lemma_prefixes_differ(act, cyc, k, 4);
        lemma_prefixes_differ(act, tcyc, k, 4);
        lemma_prefixes_differ(act, tot, k, 4);
        lemma_prefixes_differ(act, shr, k, 4);
        lemma_prefixes_differ(act, res, k, 4);
        lemma_prefixes_differ(act, pur, k, 4);
    }
}

/// The model that the lines give, read in order from an empty one; the first
/// refused line decides the error.
pub open spec fn parse_lines(lines: Seq<Seq<char>>) -> Result<FdinfoModel, FdinfoError>
    decreases lines.len(),
{
    if lines.len() == 0 {
        Ok(empty_fdinfo_model())
    } else {
        match parse_lines(lines.drop_last()) {
            Ok(m) => apply_line(m, lines.last()),
            Err(e) => Err(e),
        }
    }
}

/// No two engines share a name, and no two memory regions do.
pub open spec fn model_wf(m: FdinfoModel) -> bool {
    &&& forall|i: int, j: int|
        0 <= i < j < m.engines.len() ==> (#[trigger] m.engines[i]).name != (#[trigger] m.engines[j]).name
    &&& forall|i: int, j: int|
        0 <= i < j < m.mem_regions.len() ==> (#[trigger] m.mem_regions[i]).name
            != (#[trigger] m.mem_regions[j]).name
}

proof fn lemma_engine_set_wf(m: FdinfoModel, name: Seq<char>, kind: EngKvType, val: u64)
    requires
        model_wf(m),
    ensures
        model_wf(FdinfoModel { engines: engine_set(m.engines, name, kind, val), ..m }),
{
    let es = m.engines;
    lemma_eng_index_from(es, name, 0);
    let j = eng_index(es, name);
    let es2 = if j >= es.len() { es.push(default_engine(name)) } else { es };
    let r = es2.update(j, set_engine_field(es2[j], kind, val));
    assert forall|a: int, b: int| 0 <= a < b < r.len() implies (#[trigger] r[a]).name != (#[trigger] r[b]).name by {
        assert(r[a].name == es2[a].name);
        assert(r[b].name == es2[b].name);
        if b < es.len() {
            assert(es[a].name != es[b].name);
        }
    }
}

proof fn lemma_region_set_wf(m: FdinfoModel, name: Seq<char>, kind: MemRegKvType, val: u64)
    requires
        model_wf(m),
    ensures
        model_wf(FdinfoModel { mem_regions: region_set(m.mem_regions, name, kind, val), ..m }),
{
    let rs = m.mem_regions;
    lemma_reg_index_from(rs, name, 0);
    let j = reg_index(rs, name);
    let rs2 = if j >= rs.len() { rs.push(default_region(name)) } else { rs };
    let r = rs2.update(j, set_region_field(rs2[j], kind, val));
    assert forall|a: int, b: int| 0 <= a < b < r.len() implies (#[trigger] r[a]).name != (#[trigger] r[b]).name by {
        assert(r[a].name == rs2[a].name);
        assert(r[b].name == rs2[b].name);
        if b < rs.len() {
            assert(rs[a].name != rs[b].name);
        }
    }
}

proof fn lemma_apply_line_wf(m: FdinfoModel, line: Seq<char>)
    requires
        model_wf(m),
    ensures
        apply_line(m, line) matches Ok(m2) ==> model_wf(m2),
{
    let k = line_key(line);
    let v = line_value(line);
    if find2_from(line, 0, ':', '\t') < line.len() && is_prefix("drm-"@, k) {
        match spec_engine_value(EngKvType::KvCapacity, v) {
            Ok(x) => lemma_engine_set_wf(m, k.skip("drm-engine-capacity-"@.len() as int), EngKvType::KvCapacity, x),
            Err(_) => {},
        }
        match spec_engine_value(EngKvType::KvTime, v) {
            Ok(x) => lemma_engine_set_wf(m, k.skip("drm-engine-"@.len() as int), EngKvType::KvTime, x),
            Err(_) => {},
        }
        match spec_engine_value(EngKvType::KvCycles, v) {
            Ok(x) => lemma_engine_set_wf(m, k.skip("drm-cycles-"@.len() as int), EngKvType::KvCycles, x),
            Err(_) => {},
        }
        match spec_engine_value(EngKvType::KvTotCycles, v) {
            Ok(x) => lemma_engine_set_wf(m, k.skip("drm-total-cycles-"@.len() as int), EngKvType::KvTotCycles, x),
            Err(_) => {},
        }
        match spec_mem_value(v) {
            Ok(x) => {
                lemma_region_set_wf(m, k.skip("drm-total-"@.len() as int), MemRegKvType::KvTotal, x);
                lemma_region_set_wf(m, k.skip("drm-shared-"@.len() as int), MemRegKvType::KvShared, x);
                lemma_region_set_wf(m, k.skip("drm-resident-"@.len() as int), MemRegKvType::KvResident, x);
                lemma_region_set_wf(m, k.skip("drm-purgeable-"@.len() as int), MemRegKvType::KvPurgeable, x);
                lemma_region_set_wf(m, k.skip("drm-active-"@.len() as int), MemRegKvType::KvActive, x);
            },
            Err(_) => {},
        }
    }
}

proof fn lemma_parse_lines_wf(lines: Seq<Seq<char>>)
    ensures
        parse_lines(lines) matches Ok(m) ==> model_wf(m),
    decreases lines.len(),
{
    if lines.len() > 0 {
        lemma_parse_lines_wf(lines.drop_last());
        match parse_lines(lines.drop_last()) {
            Ok(m) => lemma_apply_line_wf(m, lines.last()),
            Err(_) => {},
        }
    }
}

/// Whatever fdinfo text is accepted, its engines have distinct names and so
/// have its memory regions: a name seen again updates the counters kept for
/// it.
pub proof fn lemma_parsed_names_unique(content: Seq<char>)
    ensures
        spec_parse_fdinfo(content) matches Ok(m) ==> model_wf(m),
{
    lemma_parse_lines_wf(spec_lines(content));
}

/// What an fdinfo file's text gives.
pub open spec fn spec_parse_fdinfo(content: Seq<char>) -> Result<FdinfoModel, FdinfoError> {
    parse_lines(spec_lines(content))
}


// ---------------------------------------------------------------------------
// The parser
// ---------------------------------------------------------------------------

/// The engine counter value that `val` gives for `kind`.
pub fn engine_value(kind: EngKvType, val: &str) -> (r: Result<u64, FdinfoError>)
    ensures
        r == spec_engine_value(kind, val@),
{
    let v = chars_of(val);
    let n = v.len();
    assert(v@.subrange(0, n as int) =~= val@);
    match kind {
        EngKvType::KvCapacity => match parse_uint(&v, 0, n, 0xffff_ffff) {
            Some(x) => Ok(x),
            None => Err(FdinfoError::InvalidNumber),
        },
        EngKvType::KvTime => {
            let toks = token_ranges(&v, 0, n);
            assert(v@.subrange(0, n as int) =~= val@);
            if toks.len() == 0 {
                Err(FdinfoError::MissingValue)
            } else {
                let (a, b) = toks[0];
                match parse_uint(&v, a, b, u64::MAX) {
                    Some(x) => Ok(x),
                    None => Err(FdinfoError::InvalidNumber),
                }
            }
        },
        _ => match parse_uint(&v, 0, n, u64::MAX) {
            Some(x) => Ok(x),
            None => Err(FdinfoError::InvalidNumber),
        },
    }
}

/// Bytes per unit for a memory amount's unit suffix.
pub fn mul_from_unit(unit: &str) -> (r: u64)
    ensures
        r == spec_mul_from_unit(unit@),
{
    let v = chars_of(unit);
    let n = v.len();
    assert(v@.subrange(0, n as int) =~= unit@);
    if eq_lit(&v, 0, n, "KiB") {
        1024
    } else if eq_lit(&v, 0, n, "MiB") {
        0x10_0000
    } else if eq_lit(&v, 0, n, "GiB") {
        0x4000_0000
    } else {
        1
    }
}

/// The byte count of a memory amount value such as `"1024 KiB"`.
pub fn mem_value(val: &str) -> (r: Result<u64, FdinfoError>)
    ensures
        r == spec_mem_value(val@),
{
    let v = chars_of(val);
    let n = v.len();
    let toks = token_ranges(&v, 0, n);
    assert(v@.subrange(0, n as int) =~= val@);
    if toks.len() == 0 {
        return Err(FdinfoError::MissingValue);
    }
    let (a, b) = toks[0];
    let nr = match parse_uint(&v, a, b, u64::MAX) {
        Some(x) => x,
        None => {
            return Err(FdinfoError::InvalidNumber);
        },
    };
    let mut mul: u64 = 1;
    if toks.len() == 2 {
        let (c, d) = toks[1];
        let unit = val.substring_char(c, d);
        mul = mul_from_unit(unit);
    }
    if mul != 0 && nr > u64::MAX / mul {
        assert(nr * mul > u64::MAX) by (nonlinear_arith)
            requires
                mul > 0,
                nr > u64::MAX / mul,
        ;
        return Err(FdinfoError::ValueOverflow);
    }
    assert(nr * mul <= u64::MAX) by (nonlinear_arith)
        requires
            mul > 0,
            nr <= u64::MAX / mul,
    ;
    Ok(nr * mul)
}

impl DrmFdinfo {
    /// An empty fdinfo for the DRM minor `d_minor`, read from `path` at
    /// `time_sampled`.
    pub fn new(path: String, d_minor: u32, time_sampled: u64) -> (r: DrmFdinfo)
        ensures
            r.model() == empty_fdinfo_model(),
            r.path == path,
            r.drm_minor == d_minor,
            r.time_sampled == time_sampled,
    {
        let r = DrmFdinfo {
            pci_dev: String::new(),
            drm_minor: d_minor,
            client_id: 0,
            path,
            engines: Vec::new(),
            mem_regions: Vec::new(),
            time_sampled,
        };
        assert(r.model().engines =~= Seq::<EngineModel>::empty());
        assert(r.model().mem_regions =~= Seq::<RegionModel>::empty());
        r
    }

    /// Whether a file of mode `st_mode` and device number `st_rdev` is a DRM
    /// character device; if so its minor number is stored in `minor`.
    pub fn is_drm_fd(st_mode: u32, st_rdev: u64, minor: &mut u32) -> (r: bool)
        ensures
            r == spec_is_drm_char_dev(st_mode, st_rdev),
            *final(minor) == (if r {
                spec_dev_minor(st_rdev)
            } else {
                *old(minor)
            }),
    {
        match drm_char_dev_minor(st_mode, st_rdev) {
            Some(mn) => {
                *minor = mn;
                true
            },
            None => false,
        }
    }

    /// Index of the engine named `eng_name` (or the number of engines).
    pub fn find_engine(&self, eng_name: &String) -> (r: usize)
        ensures
            r == eng_index(self.model().engines, eng_name@),
    {
        let ghost es = self.model().engines;
        let mut k: usize = 0;
        while k < self.engines.len()
            invariant
                k <= self.engines@.len(),
                es == self.model().engines,
                eng_index(es, eng_name@) == eng_index_from(es, eng_name@, k as int),
            decreases self.engines@.len() - k,
        {
            assert(es[k as int] == self.engines@[k as int]@);
            if self.engines[k].name == *eng_name {
                return k;
            }
            k = k + 1;
        }
        k
    }

    /// Index of the memory region named `mr_name` (or the number of regions).
    pub fn find_mem_region(&self, mr_name: &String) -> (r: usize)
        ensures
            r == reg_index(self.model().mem_regions, mr_name@),
    {
        let ghost rs = self.model().mem_regions;
        let mut k: usize = 0;
        while k < self.mem_regions.len()
            invariant
                k <= self.mem_regions@.len(),
                rs == self.model().mem_regions,
                reg_index(rs, mr_name@) == reg_index_from(rs, mr_name@, k as int),
            decreases self.mem_regions@.len() - k,
        {
            assert(rs[k as int] == self.mem_regions@[k as int]@);
            if self.mem_regions[k].name == *mr_name {
                return k;
            }
            k = k + 1;
        }
        k
    }

    /// Sets one counter of the engine `eng_name` from the value text `val`,
    /// adding the engine first when it is new. A refused value leaves the
    /// fdinfo as it was.
    pub fn update_engine(&mut self, kv_type: EngKvType, eng_name: &str, val: &str) -> (r: Result<
        (),
        FdinfoError,
    >)
        ensures
            match spec_engine_value(kv_type, val@) {
                Ok(x) => r is Ok && final(self).model() == FdinfoModel {
                    engines: engine_set(old(self).model().engines, eng_name@, kv_type, x),
                    ..old(self).model()
                },
                Err(e) => r == Err::<(), FdinfoError>(e) && final(self).model() == old(
                    self,
                ).model(),
            },
            final(self).path == old(self).path,
            final(self).drm_minor == old(self).drm_minor,
            final(self).time_sampled == old(self).time_sampled,
    {
        let x = match engine_value(kv_type, val) {
            Ok(x) => x,
            Err(e) => {
                return Err(e);
            },
        };
        let name = String::from_str(eng_name);
        let ghost es = self.model().engines;
        let j = self.find_engine(&name);
        proof {
            lemma_eng_index_from(es, eng_name@, 0);
        }
        if j >= self.engines.len() {
            self.engines.push(DrmEngine::new(eng_name));
            assert(self.model().engines =~= es.push(default_engine(eng_name@)));
        }
        let old_e = &self.engines[j];
        let ne = DrmEngine {
            name: old_e.name.clone(),
            capacity: if kv_type == EngKvType::KvCapacity {
                x as u32
            } else {
                old_e.capacity
            },
            time: if kv_type == EngKvType::KvTime {
                x
            } else {
                old_e.time
            },
            cycles: if kv_type == EngKvType::KvCycles {
                x
            } else {
                old_e.cycles
            },
            total_cycles: if kv_type == EngKvType::KvTotCycles {
                x
            } else {
                old_e.total_cycles
            },
        };
        let ghost es2 = self.model().engines;
        assert(ne@ == set_engine_field(es2[j as int], kv_type, x));
        self.engines.set(j, ne);
        assert(self.model().engines =~= es2.update(j as int, ne@));
        Ok(())
    }

    /// Sets one counter of the memory region `mr_name` from the amount text
    /// `val`, adding the region first when it is new. A refused value leaves
    /// the fdinfo as it was.
    pub fn update_mem_region(&mut self, kv_type: MemRegKvType, mr_name: &str, val: &str) -> (r:
        Result<(), FdinfoError>)
        ensures
            match spec_mem_value(val@) {
                Ok(x) => r is Ok && final(self).model() == FdinfoModel {
                    mem_regions: region_set(old(self).model().mem_regions, mr_name@, kv_type, x),
                    ..old(self).model()
                },
                Err(e) => r == Err::<(), FdinfoError>(e) && final(self).model() == old(
                    self,
                ).model(),
            },
            final(self).path == old(self).path,
            final(self).drm_minor == old(self).drm_minor,
            final(self).time_sampled == old(self).time_sampled,
    {
        let x = match mem_value(val) {
            Ok(x) => x,
            Err(e) => {
                return Err(e);
            },
        };
        let name = String::from_str(mr_name);
        let ghost rs = self.model().mem_regions;
        let j = self.find_mem_region(&name);
        proof {
            lemma_reg_index_from(rs, mr_name@, 0);
        }
        if j >= self.mem_regions.len() {
            self.mem_regions.push(DrmMemRegion::new(mr_name));
            assert(self.model().mem_regions =~= rs.push(default_region(mr_name@)));
        }
        let o = &self.mem_regions[j];
        let nr = DrmMemRegion {
            name: o.name.clone(),
            total: if kv_type == MemRegKvType::KvTotal {
                x
            } else {
                o.total
            },
            shared: if kv_type == MemRegKvType::KvShared {
                x
            } else {
                o.shared
            },
            resident: if kv_type == MemRegKvType::KvResident {
                x
            } else {
                o.resident
            },
            purgeable: if kv_type == MemRegKvType::KvPurgeable {
                x
            } else {
                o.purgeable
            },
            active: if kv_type == MemRegKvType::KvActive {
                x
            } else {
                o.active
            },
        };
        let ghost rs2 = self.model().mem_regions;
        assert(nr@ == set_region_field(rs2[j as int], kv_type, x));
        self.mem_regions.set(j, nr);
        assert(self.model().mem_regions =~= rs2.update(j as int, nr@));
        Ok(())
    }
}

impl DrmFdinfo {
    /// Applies the fdinfo line that is the characters `ls..le` of `content`
    /// (whose characters are `v`).
    fn apply_line(&mut self, content: &str, v: &Vec<char>, ls: usize, le: usize) -> (r: Result<
        (),
        FdinfoError,
    >)
        requires
            v@ == content@,
            ls <= le <= v@.len(),
        ensures
            match apply_line(old(self).model(), v@.subrange(ls as int, le as int)) {
                Ok(m) => r is Ok && final(self).model() == m,
                Err(e) => r == Err::<(), FdinfoError>(e),
            },
            final(self).path == old(self).path,
            final(self).drm_minor == old(self).drm_minor,
            final(self).time_sampled == old(self).time_sampled,
    {
        let ghost line = v@.subrange(ls as int, le as int);
        let i = find_char2(v, ls, le, ':', '\t');
        proof {
            crate::text::lemma_find2_from_bounds(line, 0, ':', '\t');
        }
        if i >= le {
            return Err(FdinfoError::MissingSeparator);
        }
        let vs = i + 2;
        let j = find_char2(v, vs, le, ':', '\t');
        proof {
            let rest = line.skip(i - ls + 2);
            assert(rest =~= v@.subrange(vs as int, le as int));
            assert(line_key(line) =~= v@.subrange(ls as int, i as int));
            assert(line_value(line) =~= v@.subrange(vs as int, j as int));
        }
        let val = content.substring_char(vs, j);
        if !starts_with_lit(v, ls, i, "drm-") {
            return Ok(());
        }
        if starts_with_lit(v, ls, i, "drm-pdev") {
            self.pci_dev.append(val);
            return Ok(());
        }
        if starts_with_lit(v, ls, i, "drm-client-id") {
            match parse_uint(v, vs, j, 0xffff_ffff) {
                Some(x) => {
                    self.client_id = x as u32;
                    return Ok(());
                },
                None => {
                    return Err(FdinfoError::InvalidNumber);
                },
            }
        }
        let ghost k = v@.subrange(ls as int, i as int);
        if starts_with_lit(v, ls, i, "drm-engine-capacity-") {
            let n = "drm-engine-capacity-".unicode_len();
            assert(k.skip(n as int) =~= v@.subrange(ls + n, i as int));
            let name = content.substring_char(ls + n, i);
            return self.update_engine(EngKvType::KvCapacity, name, val);
        }
        if starts_with_lit(v, ls, i, "drm-engine-") {
            let n = "drm-engine-".unicode_len();
            assert(k.skip(n as int) =~= v@.subrange(ls + n, i as int));
            let name = content.substring_char(ls + n, i);
            return self.update_engine(EngKvType::KvTime, name, val);
        }
        if starts_with_lit(v, ls, i, "drm-cycles-") {
            let n = "drm-cycles-".unicode_len();
            assert(k.skip(n as int) =~= v@.subrange(ls + n, i as int));
            let name = content.substring_char(ls + n, i);
            return self.update_engine(EngKvType::KvCycles, name, val);
        }
        if starts_with_lit(v, ls, i, "drm-total-cycles-") {
            let n = "drm-total-cycles-".unicode_len();
            assert(k.skip(n as int) =~= v@.subrange(ls + n, i as int));
            let name = content.substring_char(ls + n, i);
            return self.update_engine(EngKvType::KvTotCycles, name, val);
        }
        if starts_with_lit(v, ls, i, "drm-total-") {
            let n = "drm-total-".unicode_len();
            assert(k.skip(n as int) =~= v@.subrange(ls + n, i as int));
            let name = content.substring_char(ls + n, i);
            return self.update_mem_region(MemRegKvType::KvTotal, name, val);
        }
        if starts_with_lit(v, ls, i, "drm-shared-") {
            let n = "drm-shared-".unicode_len();
            assert(k.skip(n as int) =~= v@.subrange(ls + n, i as int));
            let name = content.substring_char(ls + n, i);
            return self.update_mem_region(MemRegKvType::KvShared, name, val);
        }
        if starts_with_lit(v, ls, i, "drm-resident-") {
            let n = "drm-resident-".unicode_len();
            assert(k.skip(n as int) =~= v@.subrange(ls + n, i as int));
            let name = content.substring_char(ls + n, i);
            return self.update_mem_region(MemRegKvType::KvResident, name, val);
        }
        if starts_with_lit(v, ls, i, "drm-purgeable-") {
            let n = "drm-purgeable-".unicode_len();
            assert(k.skip(n as int) =~= v@.subrange(ls + n, i as int));
            let name = content.substring_char(ls + n, i);
            return self.update_mem_region(MemRegKvType::KvPurgeable, name, val);
        }
        if starts_with_lit(v, ls, i, "drm-active-") {
            let n = "drm-active-".unicode_len();
            assert(k.skip(n as int) =~= v@.subrange(ls + n, i as int));
            let name = content.substring_char(ls + n, i);
            return self.update_mem_region(MemRegKvType::KvActive, name, val);
        }
        Ok(())
    }

    /// Parses the text of a DRM fdinfo file read from `path` for the DRM
    /// minor `d_minor` at time `time_sampled` (ms).
    pub fn from(content: &str, path: String, d_minor: u32, time_sampled: u64) -> (r: Result<
        DrmFdinfo,
        FdinfoError,
    >)
        ensures
            match spec_parse_fdinfo(content@) {
                Ok(m) => r matches Ok(info) && info.model() == m && info.path == path
                    && info.drm_minor == d_minor && info.time_sampled == time_sampled
                    && info.wf(),
                Err(e) => r matches Err(e2) && e2 == e,
            },
    {
        let v = chars_of(content);
        let lines = line_ranges(&v);
        let ghost ls = spec_lines(v@);
        let mut info = DrmFdinfo::new(path, d_minor, time_sampled);
        let mut k: usize = 0;
        assert(ls.take(0) =~= Seq::<Seq<char>>::empty());
        while k < lines.len()
            invariant
                v@ == content@,
                ls == spec_lines(v@),
                lines@.len() == ls.len(),
                forall|q: int|
                    0 <= q < lines@.len() ==> (#[trigger] lines@[q]).0 <= lines@[q].1 <= v@.len()
                        && v@.subrange(lines@[q].0 as int, lines@[q].1 as int) == ls[q],
                k <= lines@.len(),
                parse_lines(ls.take(k as int)) == Ok::<FdinfoModel, FdinfoError>(info.model()),
                info.path == path,
                info.drm_minor == d_minor,
                info.time_sampled == time_sampled,
            decreases lines@.len() - k,
        {
            let (a, b) = lines[k];
            proof {
                assert(ls.take(k + 1).drop_last() =~= ls.take(k as int));
                assert(ls.take(k + 1).last() == ls[k as int]);
            }
            match info.apply_line(content, &v, a, b) {
                Ok(()) => {},
                Err(e) => {
                    assert(ls.take(lines@.len() as int) =~= ls);
                    proof {
                        lemma_parse_lines_err_prefix(ls, k as int + 1);
                    }
                    return Err(e);
                },
            }
            k = k + 1;
        }
        assert(ls.take(k as int) =~= ls);
        proof {
            lemma_parsed_names_unique(content@);
        }
        Ok(info)
    }
}

/// Once a prefix of the lines is refused, so are all the lines, with the same
/// error.
pub proof fn lemma_parse_lines_err_prefix(lines: Seq<Seq<char>>, n: int)
    requires
        0 <= n <= lines.len(),
        parse_lines(lines.take(n)) is Err,
    ensures
        parse_lines(lines) == parse_lines(lines.take(n)),
    decreases lines.len() - n,
{
    if n < lines.len() {
        assert(lines.take(n + 1).drop_last() =~= lines.take(n));
        lemma_parse_lines_err_prefix(lines, n + 1);
    } else {
        assert(lines.take(n) =~= lines);
    }
}
} // verus!
