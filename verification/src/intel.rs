//! Options of the Intel drivers (`xe`, `i915`): which statistics to read
//! through the PMU or MSRs, given per device slot on the command line.
use vstd::prelude::*;

use crate::text::{chars_of, eq_lit, is_prefix, spec_split, split_ranges, starts_with_lit};

verus! {

pub const INTEL_DRV_OPT_ENGS_PMU: u32 = 1;
pub const INTEL_DRV_OPT_FREQS_PMU: u32 = 2;
pub const INTEL_DRV_OPT_POWER_MSR: u32 = 4;

/// The options that apply to one device, as bits.
#[derive(Debug)]
pub struct IntelDriverOpts {
    pub opts: u32,
}

/// The bit of a known option (`engines=pmu`, `freqs=pmu`, `power=msr`), 0
/// for anything else.
pub open spec fn spec_opt_bit(opt: Seq<char>) -> u32 {
    if opt == "engines=pmu"@ {
        INTEL_DRV_OPT_ENGS_PMU
    } else if opt == "freqs=pmu"@ {
        INTEL_DRV_OPT_FREQS_PMU
    } else if opt == "power=msr"@ {
        INTEL_DRV_OPT_POWER_MSR
    } else {
        0
    }
}

/// One comma-separated piece of an options text read into the state
/// (device slot, wanted bits): `devslot=<slot>` names the slot, the last
/// such piece winning; any other piece adds its option's bit.
pub open spec fn apply_piece(st: (Seq<char>, u32), p: Seq<char>) -> (Seq<char>, u32) {
    if is_prefix("devslot="@, p) {
        (p.skip(8), st.1)
    } else {
        (st.0, st.1 | spec_opt_bit(p))
    }
}

pub open spec fn apply_pieces(st: (Seq<char>, u32), ps: Seq<Seq<char>>) -> (Seq<char>, u32)
    decreases ps.len(),
{
    if ps.len() == 0 {
        st
    } else {
        apply_pieces(apply_piece(st, ps[0]), ps.skip(1))
    }
}

/// The device slot and bits that one options text asks for: the slot is
/// `all` unless a piece names one.
pub open spec fn opts_text(s: Seq<char>) -> (Seq<char>, u32) {
    apply_pieces(("all"@, 0), spec_split(s, ','))
}

/// Whether an options text applies to the device `pci_dev`.
pub open spec fn opts_text_applies(s: Seq<char>, pci_dev: Seq<char>) -> bool {
    opts_text(s).0 == "all"@ || opts_text(s).0 == pci_dev
}

/// The bits that the options texts give the device `pci_dev`: the union of
/// the bits of the texts that apply to it.
pub open spec fn spec_opts_from(pci_dev: Seq<char>, strs: Seq<Seq<char>>) -> u32
    decreases strs.len(),
{
    if strs.len() == 0 {
        0
    } else {
        spec_opts_from(pci_dev, strs.drop_last()) | (if opts_text_applies(strs.last(), pci_dev) {
            opts_text(strs.last()).1
        } else {
            0
        })
    }
}

/// Whether `mask`'s bit is set in the options of `pci_dev`: some options
/// text that applies to the device has a piece naming that option.
pub open spec fn spec_opt_asked(pci_dev: Seq<char>, strs: Seq<Seq<char>>, mask: u32) -> bool {
    exists|k: int, q: int|
        0 <= k < strs.len() && opts_text_applies(strs[k], pci_dev) && 0 <= q < spec_split(
            strs[k],
            ',',
        ).len() && !is_prefix("devslot="@, #[trigger] spec_split(strs[k], ',')[q]) && spec_opt_bit(
            spec_split(strs[k], ',')[q],
        ) == mask
}

proof fn lemma_or_bit(a: u32, b: u32, m: u32)
    requires
        m == 1 || m == 2 || m == 4,
    ensures
        ((a | b) & m != 0) == ((a & m != 0) || (b & m != 0)),
        (0u32 & m) == 0,
{
    assert(((a | b) & m != 0) == ((a & m != 0) || (b & m != 0))) by (bit_vector)
        requires
            m == 1 || m == 2 || m == 4,
    ;
    assert((0u32 & m) == 0) by (bit_vector);
}

proof fn lemma_opt_bit_mask(p: Seq<char>, m: u32)
    requires
        m == 1 || m == 2 || m == 4,
    ensures
        (spec_opt_bit(p) & m != 0) == (spec_opt_bit(p) == m),
{
    let b = spec_opt_bit(p);
    assert(b == 0 || b == 1 || b == 2 || b == 4);
    assert((b == 0 || b == 1 || b == 2 || b == 4) ==> ((b & m != 0) == (b == m))) by (bit_vector)
        requires
            m == 1 || m == 2 || m == 4,
    ;
}

proof fn lemma_apply_pieces_bit(st: (Seq<char>, u32), ps: Seq<Seq<char>>, m: u32)
    requires
        m == 1 || m == 2 || m == 4,
    ensures
        (apply_pieces(st, ps).1 & m != 0) == ((st.1 & m != 0) || exists|q: int|
            0 <= q < ps.len() && !is_prefix("devslot="@, #[trigger] ps[q]) && spec_opt_bit(ps[q])
                == m),
    decreases ps.len(),
{
    if ps.len() > 0 {
        let st2 = apply_piece(st, ps[0]);
        lemma_apply_pieces_bit(st2, ps.skip(1), m);
        lemma_or_bit(st.1, spec_opt_bit(ps[0]), m);
        lemma_opt_bit_mask(ps[0], m);
        if exists|q: int|
            0 <= q < ps.skip(1).len() && !is_prefix("devslot="@, #[trigger] ps.skip(1)[q])
                && spec_opt_bit(ps.skip(1)[q]) == m {
            let q = choose|q: int|
                0 <= q < ps.skip(1).len() && !is_prefix("devslot="@, #[trigger] ps.skip(1)[q])
                    && spec_opt_bit(ps.skip(1)[q]) == m;
            assert(ps[q + 1] == ps.skip(1)[q]);
        }
        if exists|q: int|
            0 <= q < ps.len() && !is_prefix("devslot="@, #[trigger] ps[q]) && spec_opt_bit(ps[q])
                == m {
            let q = choose|q: int|
                0 <= q < ps.len() && !is_prefix("devslot="@, #[trigger] ps[q]) && spec_opt_bit(
                    ps[q],
                ) == m;
            if q > 0 {
                assert(ps.skip(1)[q - 1] == ps[q]);
            }
        }
    }
}

/// An option is on for a device exactly when some options text that applies
/// to the device names it.
pub proof fn lemma_opts_from_bit(pci_dev: Seq<char>, strs: Seq<Seq<char>>, mask: u32)
    requires
        mask == INTEL_DRV_OPT_ENGS_PMU || mask == INTEL_DRV_OPT_FREQS_PMU || mask
            == INTEL_DRV_OPT_POWER_MSR,
    ensures
        (spec_opts_from(pci_dev, strs) & mask != 0) == spec_opt_asked(pci_dev, strs, mask),
    decreases strs.len(),
{
    if strs.len() == 0 {
        lemma_or_bit(0, 0, mask);
    } else {
        let prev = strs.drop_last();
        lemma_opts_from_bit(pci_dev, prev, mask);
        let s = strs.last();
        let add = if opts_text_applies(s, pci_dev) {
            opts_text(s).1
        } else {
            0
        };
        lemma_or_bit(spec_opts_from(pci_dev, prev), add, mask);
        lemma_apply_pieces_bit(("all"@, 0), spec_split(s, ','), mask);
        lemma_or_bit(0, 0, mask);
        if spec_opt_asked(pci_dev, prev, mask) {
            let (k, q) = choose|k: int, q: int|
                0 <= k < prev.len() && opts_text_applies(prev[k], pci_dev) && 0 <= q < spec_split(
                    prev[k],
                    ',',
                ).len() && !is_prefix("devslot="@, #[trigger] spec_split(prev[k], ',')[q])
                    && spec_opt_bit(spec_split(prev[k], ',')[q]) == mask;
            assert(strs[k] == prev[k]);
        }
        if spec_opt_asked(pci_dev, strs, mask) {
            let (k, q) = choose|k: int, q: int|
                0 <= k < strs.len() && opts_text_applies(strs[k], pci_dev) && 0 <= q < spec_split(
                    strs[k],
                    ',',
                ).len() && !is_prefix("devslot="@, #[trigger] spec_split(strs[k], ',')[q])
                    && spec_opt_bit(spec_split(strs[k], ',')[q]) == mask;
            if k < strs.len() - 1 {
                assert(prev[k] == strs[k]);
            }
        }
    }
}

impl IntelDriverOpts {
    pub fn has_engs_pmu(&self) -> (r: bool)
        ensures
            r == (self.opts & INTEL_DRV_OPT_ENGS_PMU != 0),
    {
        self.opts & INTEL_DRV_OPT_ENGS_PMU != 0
    }

    pub fn has_freqs_pmu(&self) -> (r: bool)
        ensures
            r == (self.opts & INTEL_DRV_OPT_FREQS_PMU != 0),
    {
        self.opts & INTEL_DRV_OPT_FREQS_PMU != 0
    }

    pub fn has_power_msr(&self) -> (r: bool)
        ensures
            r == (self.opts & INTEL_DRV_OPT_POWER_MSR != 0),
    {
        self.opts & INTEL_DRV_OPT_POWER_MSR != 0
    }

    /// Sets the bit of the option that the characters `from..to` of `v`
    /// name, if it is a known one.
    fn set_bit_for(&mut self, v: &Vec<char>, from: usize, to: usize)
        requires
            from <= to <= v@.len(),
        ensures
            final(self).opts == old(self).opts | spec_opt_bit(v@.subrange(from as int, to as int)),
    {
        let ghost o = v@.subrange(from as int, to as int);
        proof {
            reveal_strlit("engines=pmu");
            reveal_strlit("freqs=pmu");
            reveal_strlit("power=msr");
        }
        let mut bit: u32 = 0;
        if eq_lit(v, from, to, "engines=pmu") {
            bit = INTEL_DRV_OPT_ENGS_PMU;
        } else if eq_lit(v, from, to, "freqs=pmu") {
            bit = INTEL_DRV_OPT_FREQS_PMU;
        } else if eq_lit(v, from, to, "power=msr") {
            bit = INTEL_DRV_OPT_POWER_MSR;
        }
        assert(bit == spec_opt_bit(o));
        self.opts = self.opts | bit;
    }

    fn set_bits_from(&mut self, other: &IntelDriverOpts)
        ensures
            final(self).opts == old(self).opts | other.opts,
    {
        self.opts = self.opts | other.opts;
    }

    /// The device slot and wanted bits of one options text.
    fn read_opts_text(s: &str) -> (r: (Option<(usize, usize)>, IntelDriverOpts, Vec<char>))
        ensures
            r.2@ == s@,
            r.1.opts == opts_text(s@).1,
            match r.0 {
                None => opts_text(s@).0 == "all"@,
                Some((a, b)) => a <= b <= s@.len() && opts_text(s@).0 == s@.subrange(a as int, b as int),
            },
    {
        let v = chars_of(s);
        let pieces = split_ranges(&v, ',');
        let ghost ps = spec_split(v@, ',');
        let mut slot: Option<(usize, usize)> = None;
        let mut want = IntelDriverOpts { opts: 0 };
        let mut k: usize = 0;
        proof {
            reveal_strlit("devslot=");
            assert(ps.skip(0) =~= ps);
        }
        while k < pieces.len()
            invariant
                v@ == s@,
                ps == spec_split(v@, ','),
                pieces@.len() == ps.len(),
                forall|q: int|
                    0 <= q < pieces@.len() ==> (#[trigger] pieces@[q]).0 <= pieces@[q].1 <= v@.len()
                        && v@.subrange(pieces@[q].0 as int, pieces@[q].1 as int) == ps[q],
                k <= pieces@.len(),
                match slot {
                    None => true,
                    Some((a, b)) => a <= b <= v@.len(),
                },
                opts_text(s@) == apply_pieces(
                    (
                        match slot {
                            None => "all"@,
                            Some((a, b)) => v@.subrange(a as int, b as int),
                        },
                        want.opts,
                    ),
                    ps.skip(k as int),
                ),
            decreases pieces@.len() - k,
        {
            let (a, b) = pieces[k];
            let ghost st = (
                match slot {
                    None => "all"@,
                    Some((x, y)) => v@.subrange(x as int, y as int),
                },
                want.opts,
            );
            assert(ps.skip(k as int)[0] == ps[k as int]);
            assert(ps.skip(k as int).skip(1) =~= ps.skip(k + 1));
            proof {
                reveal_strlit("devslot=");
            }
            if starts_with_lit(&v, a, b, "devslot=") {
                assert(v@.subrange(a as int, b as int).skip(8) =~= v@.subrange(a + 8, b as int));
                slot = Some((a + 8, b));
            } else {
                want.set_bit_for(&v, a, b);
            }
            k = k + 1;
        }
        (slot, want, v)
    }

    /// The options that the options texts `opts_vec` give the device
    /// `pci_dev`: each text is a comma-separated list of options, applying
    /// to every device unless a `devslot=<slot>` piece names one.
    pub fn from(pci_dev: &str, opts_vec: Option<&Vec<&str>>) -> (r: IntelDriverOpts)
        ensures
            r.opts == match opts_vec {
                None => 0,
                Some(v) => spec_opts_from(pci_dev@, v@.map_values(|s: &str| s@)),
            },
    {
        let mut ret = IntelDriverOpts { opts: 0 };
        let opts_vec = match opts_vec {
            None => {
                return ret;
            },
            Some(v) => v,
        };
        let ghost strs = opts_vec@.map_values(|s: &str| s@);
        let mut k: usize = 0;
        assert(strs.take(0) =~= Seq::<Seq<char>>::empty());
        while k < opts_vec.len()
            invariant
                k <= opts_vec@.len(),
                strs == opts_vec@.map_values(|s: &str| s@),
                ret.opts == spec_opts_from(pci_dev@, strs.take(k as int)),
            decreases opts_vec@.len() - k,
        {
            let s: &str = opts_vec[k];
            let (slot, want, v) = Self::read_opts_text(s);
            let applies = match slot {
                None => true,
                Some((a, b)) => {
                    proof {
                        reveal_strlit("all");
                    }
                    eq_lit(&v, a, b, "all") || eq_lit(&v, a, b, pci_dev)
                },
            };
            proof {
                reveal_strlit("all");
                assert(strs.take(k + 1).drop_last() =~= strs.take(k as int));
                assert(strs.take(k + 1).last() == s@);
            }
            if applies {
                ret.set_bits_from(&want);
            } else {
                assert(ret.opts | 0 == ret.opts) by (bit_vector);
                ret.opts = ret.opts | 0;
            }
            k = k + 1;
        }
        assert(strs.take(k as int) =~= strs);
        ret
    }
}

} // verus!
