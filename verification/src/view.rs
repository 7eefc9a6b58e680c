//! What the statistics views show, apart from drawing: sizes in short
//! units, whether the device statistics fit in one row, how many charts each
//! group has, and which charts are plotted.
use vstd::prelude::*;

use crate::text::{chars_of, eq_lit, spec_split, split_ranges};

verus! {

/// The decimal digit `d` as a character.
pub open spec fn digit_char(d: nat) -> char {
    ((0x30 + d) as u32) as char
}

/// The decimal representation of `n`, without leading zeros.
pub open spec fn spec_decimal(n: nat) -> Seq<char>
    decreases n,
{
    if n < 10 {
        seq![digit_char(n)]
    } else {
        spec_decimal(n / 10).push(digit_char(n % 10))
    }
}

fn digit_str(d: u64) -> (r: &'static str)
    requires
        d < 10,
    ensures
        r@ == seq![digit_char(d as nat)],
{
    proof {
        reveal_strlit("0");
        reveal_strlit("1");
        reveal_strlit("2");
        reveal_strlit("3");
        reveal_strlit("4");
        reveal_strlit("5");
        reveal_strlit("6");
        reveal_strlit("7");
        reveal_strlit("8");
        reveal_strlit("9");
    }
    let r = if d == 0 {
        "0"
    } else if d == 1 {
        "1"
    } else if d == 2 {
        "2"
    } else if d == 3 {
        "3"
    } else if d == 4 {
        "4"
    } else if d == 5 {
        "5"
    } else if d == 6 {
        "6"
    } else if d == 7 {
        "7"
    } else if d == 8 {
        "8"
    } else {
        "9"
    };
    assert(r@ =~= seq![digit_char(d as nat)]);
    r
}

/// `n` written in decimal.
pub fn decimal_string(n: u64) -> (r: String)
    ensures
        r@ == spec_decimal(n as nat),
    decreases n,
{
    if n < 10 {
        String::from_str(digit_str(n))
    } else {
        let mut s = decimal_string(n / 10);
        s.append(digit_str(n % 10));
        s
    }
}

pub const GIB: u64 = 0x4000_0000;
pub const MIB: u64 = 0x10_0000;
pub const KIB: u64 = 1024;

/// A byte count in its largest whole unit: `<n>G`, `<n>M`, `<n>K` or `<n>`,
/// rounded down.
pub open spec fn spec_short_mem(val: u64) -> Seq<char> {
    if val >= GIB {
        spec_decimal((val / GIB) as nat) + "G"@
    } else if val >= MIB {
        spec_decimal((val / MIB) as nat) + "M"@
    } else if val >= KIB {
        spec_decimal((val / KIB) as nat) + "K"@
    } else {
        spec_decimal(val as nat)
    }
}

/// A byte count in its largest whole unit, rounded down.
pub fn short_mem_string(val: u64) -> (r: String)
    ensures
        r@ == spec_short_mem(val),
{
    let (nval, unit) = if val >= GIB {
        (val / GIB, "G")
    } else if val >= MIB {
        (val / MIB, "M")
    } else if val >= KIB {
        (val / KIB, "K")
    } else {
        (val, "")
    };
    let mut vstr = decimal_string(nval);
    vstr.append(unit);
    proof {
        reveal_strlit("");
    }
    assert(val < KIB ==> vstr@ =~= spec_decimal(val as nat));
    vstr
}

/// Two byte counts as `<a>/<b>` in short units.
pub fn mem_pair_label(a: u64, b: u64) -> (r: String)
    ensures
        r@ == spec_short_mem(a) + "/"@ + spec_short_mem(b),
{
    let mut s = short_mem_string(a);
    s.append("/");
    let t = short_mem_string(b);
    s.append(t.as_str());
    s
}

/// Whether a device's statistics fit in one row of `width` columns: one
/// ten-column cell each for system memory, VRAM on a discrete device, each
/// engine, each frequency domain and the power.
pub open spec fn spec_stats_fit_one_row(is_dgfx: bool, nr_engines: nat, nr_freqs: nat, width: nat) -> bool {
    (1 + (if is_dgfx { 1nat } else { 0nat }) + nr_engines + nr_freqs + 1) * 10 <= width
}

pub fn stats_fit_one_row(is_dgfx: bool, nr_engines: usize, nr_freqs: usize, width: u16) -> (r: bool)
    ensures
        r == spec_stats_fit_one_row(is_dgfx, nr_engines as nat, nr_freqs as nat, width as nat),
{
    let extra: u128 = if is_dgfx { 1 } else { 0 };
    let nr_stats: u128 = 1 + extra + nr_engines as u128 + nr_freqs as u128 + 1;
    nr_stats * 10 <= width as u128
}

/// The number of charts of each group of device charts: one per frequency
/// domain (the count cast to `u8`, as kept by the selection), one for the
/// power, one for the memory, and one for the engines when there are any.
pub fn device_nr_charts(nr_freqs: usize, nr_engines: usize) -> (r: Vec<u8>)
    ensures
        r@ == seq![nr_freqs as u8, 1u8, 1u8, if nr_engines > 0 { 1u8 } else { 0u8 }],
{
    let mut r: Vec<u8> = Vec::new();
    r.push(nr_freqs as u8);
    r.push(1);
    r.push(1);
    r.push(if nr_engines > 0 { 1 } else { 0 });
    assert(r@ =~= seq![nr_freqs as u8, 1u8, 1u8, if nr_engines > 0 { 1u8 } else { 0u8 }]);
    r
}

/// Which charts are plotted.
#[derive(Debug, Clone, Copy, PartialEq, Eq, Structural)]
pub struct ChartSel {
    pub meminfo: bool,
    pub engines: bool,
    pub freqs: bool,
    pub power: bool,
    pub temps: bool,
    pub fans: bool,
}

/// Why a chart list was refused.
#[derive(Debug, Clone, Copy, PartialEq, Eq, Structural)]
pub enum ChartError {
    /// A name that is no chart.
    InvalidChart,
}

pub open spec fn all_charts() -> ChartSel {
    ChartSel { meminfo: true, engines: true, freqs: true, power: true, temps: true, fans: true }
}

pub open spec fn no_charts() -> ChartSel {
    ChartSel { meminfo: false, engines: false, freqs: false, power: false, temps: false, fans: false }
}

/// Whether `c` names a chart.
pub open spec fn is_chart_name(c: Seq<char>) -> bool {
    c == "meminfo"@ || c == "engines"@ || c == "freqs"@ || c == "power"@ || c == "temps"@ || c == "fans"@
}

/// The selection after the chart named `c` is added.
pub open spec fn add_chart(s: ChartSel, c: Seq<char>) -> ChartSel {
    if c == "meminfo"@ {
        ChartSel { meminfo: true, ..s }
    } else if c == "engines"@ {
        ChartSel { engines: true, ..s }
    } else if c == "freqs"@ {
        ChartSel { freqs: true, ..s }
    } else if c == "power"@ {
        ChartSel { power: true, ..s }
    } else if c == "temps"@ {
        ChartSel { temps: true, ..s }
    } else {
        ChartSel { fans: true, ..s }
    }
}

pub open spec fn add_charts(s: ChartSel, cs: Seq<Seq<char>>) -> ChartSel
    decreases cs.len(),
{
    if cs.len() == 0 {
        s
    } else {
        add_chart(add_charts(s, cs.drop_last()), cs.last())
    }
}

/// The charts that a comma-separated list selects (all of them without a
/// list); a name that is no chart refuses the list.
pub open spec fn spec_select_charts(charts: Option<Seq<char>>) -> Result<ChartSel, ChartError> {
    match charts {
        None => Ok(all_charts()),
        Some(s) => {
            let cs = spec_split(s, ',');
            if forall|i: int| 0 <= i < cs.len() ==> is_chart_name(#[trigger] cs[i]) {
                Ok(add_charts(no_charts(), cs))
            } else {
                Err(ChartError::InvalidChart)
            }
        },
    }
}

/// The charts that the comma-separated list `charts_opt` selects.
pub fn select_charts(charts_opt: Option<&str>) -> (r: Result<ChartSel, ChartError>)
    ensures
        r == spec_select_charts(match charts_opt {
            None => None,
            Some(s) => Some(s@),
        }),
{
    let s = match charts_opt {
        None => {
            return Ok(ChartSel { meminfo: true, engines: true, freqs: true, power: true, temps: true, fans: true });
        },
        Some(s) => s,
    };
    let v = chars_of(s);
    let pieces = split_ranges(&v, ',');
    let ghost cs = spec_split(v@, ',');
    let mut sel = ChartSel { meminfo: false, engines: false, freqs: false, power: false, temps: false, fans: false };
    let mut k: usize = 0;
    assert(cs.take(0) =~= Seq::<Seq<char>>::empty());
    while k < pieces.len()
        invariant
            charts_opt == Some(s),
            v@ == s@,
            cs == spec_split(v@, ','),
            pieces@.len() == cs.len(),
            forall|q: int|
                0 <= q < pieces@.len() ==> (#[trigger] pieces@[q]).0 <= pieces@[q].1 <= v@.len()
                    && v@.subrange(pieces@[q].0 as int, pieces@[q].1 as int) == cs[q],
            k <= pieces@.len(),
            forall|i: int| 0 <= i < k ==> is_chart_name(#[trigger] cs[i]),
            sel == add_charts(no_charts(), cs.take(k as int)),
        decreases pieces@.len() - k,
    {
        let (a, b) = pieces[k];
        assert(cs.take(k + 1).drop_last() =~= cs.take(k as int));
        assert(cs.take(k + 1).last() == cs[k as int]);
        if eq_lit(&v, a, b, "meminfo") {
            sel.meminfo = true;
        } else if eq_lit(&v, a, b, "engines") {
            sel.engines = true;
        } else if eq_lit(&v, a, b, "freqs") {
            sel.freqs = true;
        } else if eq_lit(&v, a, b, "power") {
            sel.power = true;
        } else if eq_lit(&v, a, b, "temps") {
            sel.temps = true;
        } else if eq_lit(&v, a, b, "fans") {
            sel.fans = true;
        } else {
            assert(!is_chart_name(cs[k as int]));
            return Err(ChartError::InvalidChart);
        }
        k = k + 1;
    }
    assert(cs.take(k as int) =~= cs);
    Ok(sel)
}

/// The PCI id of a device as a label: `<vendor id>:<device id>`.
pub fn pci_id_label(vendor_id: &str, device_id: &str) -> (r: String)
    ensures
        r@ == vendor_id@ + ":"@ + device_id@,
{
    let mut r = String::from_str(vendor_id);
    r.append(":");
    r.append(device_id);
    r
}

/// Texts joined by `,`.
pub open spec fn comma_joined(ts: Seq<Seq<char>>) -> Seq<char>
    decreases ts.len(),
{
    if ts.len() == 0 {
        Seq::empty()
    } else if ts.len() == 1 {
        ts[0]
    } else {
        comma_joined(ts.drop_last()) + ","@ + ts.last()
    }
}

/// The device nodes of a device as a label: their paths joined by `,`.
pub fn dev_nodes_label(nodes: &Vec<String>) -> (r: String)
    ensures
        r@ == comma_joined(nodes@.map_values(|s: String| s@)),
{
    let ghost ns = nodes@.map_values(|s: String| s@);
    let mut r = String::new();
    let mut k: usize = 0;
    while k < nodes.len()
        invariant
            k <= nodes@.len(),
            ns == nodes@.map_values(|s: String| s@),
            r@ == comma_joined(ns.take(k as int)),
        decreases nodes@.len() - k,
    {
        proof {
            assert(ns.take(k + 1).drop_last() =~= ns.take(k as int));
            assert(ns.take(k + 1).last() == nodes@[k as int]@);
        }
        if k > 0 {
            r.append(",");
            r.append(nodes[k].as_str());
        } else {
            r.append(nodes[k].as_str());
            proof {
                assert(r@ =~= ns.take(1)[0]);
            }
        }
        k = k + 1;
    }
    assert(ns.take(k as int) =~= ns);
    r
}

} // verus!
