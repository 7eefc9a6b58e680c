//! Bookkeeping behind the statistics views: bounded histories of samples,
//! histories added up across clients, and device node names.
use vstd::prelude::*;
use std::collections::VecDeque;

use crate::clients::{zero_mem_info, DrmClientMemInfo};
use crate::text::{chars_of, is_prefix, lemma_lex_lt_transitive, lex_le, lex_lt, lex_sorted, sort_strings, starts_with_lit, string_of};

verus! {

/// How many samples a history keeps.
pub const APP_DATA_MAX_NR_STATS: usize = 40;

/// A history after `item` is appended to `h`: the oldest sample is dropped
/// when the history is full.
pub open spec fn spec_limited_push<T>(h: Seq<T>, item: T, max: nat) -> Seq<T> {
    if h.len() == max {
        h.skip(1).push(item)
    } else {
        h.push(item)
    }
}

/// Appends `vitem` to the history `vlst`, dropping its oldest sample when it
/// already holds [`APP_DATA_MAX_NR_STATS`].
pub fn limited_vec_push<T>(vlst: &mut VecDeque<T>, vitem: T)
    ensures
        final(vlst)@ == spec_limited_push(old(vlst)@, vitem, APP_DATA_MAX_NR_STATS as nat),
{
    broadcast use vstd::std_specs::vecdeque::group_vec_dequeue_axioms;
    if vlst.len() == APP_DATA_MAX_NR_STATS {
        let _ = vlst.pop_front();
        assert(vlst@ =~= old(vlst)@.skip(1));
    }
    vlst.push_back(vitem);
}

/// A history never grows past its bound, and its newest sample is the one
/// appended last.
pub proof fn lemma_limited_push_bounded<T>(h: Seq<T>, item: T, max: nat)
    requires
        h.len() <= max,
        max > 0,
    ensures
        spec_limited_push(h, item, max).len() <= max,
        spec_limited_push(h, item, max).last() == item,
        h.len() < max ==> spec_limited_push(h, item, max).drop_last() == h,
        h.len() == max ==> spec_limited_push(h, item, max).drop_last() == h.skip(1),
{
    assert(h.push(item).drop_last() =~= h);
    if h.len() == max {
        assert(h.skip(1).push(item).drop_last() =~= h.skip(1));
    }
}

/// The figure at position `cnt` from the end of `h`, 0 when `h` is shorter.
pub open spec fn from_end(h: Seq<DrmClientMemInfo>, cnt: int) -> DrmClientMemInfo {
    if cnt <= h.len() {
        h[h.len() - cnt]
    } else {
        DrmClientMemInfo { smem_used: 0, smem_rss: 0, vram_used: 0, vram_rss: 0 }
    }
}

/// The memory histories `a` and `b` added up sample by sample, aligned on
/// their newest samples; the longer one's older samples are kept as they are.
pub open spec fn spec_acum_mem_info(a: Seq<DrmClientMemInfo>, b: Seq<DrmClientMemInfo>) -> Seq<
    DrmClientMemInfo,
> {
    let n = if a.len() >= b.len() {
        a.len()
    } else {
        b.len()
    };
    Seq::new(
        n,
        |j: int|
            {
                let x = from_end(a, n - j);
                let y = from_end(b, n - j);
                DrmClientMemInfo {
                    smem_used: (x.smem_used + y.smem_used) as u64,
                    smem_rss: (x.smem_rss + y.smem_rss) as u64,
                    vram_used: (x.vram_used + y.vram_used) as u64,
                    vram_rss: (x.vram_rss + y.vram_rss) as u64,
                }
            },
    )
}

/// The sums of two histories fit in 64 bits.
pub open spec fn acum_fits(a: Seq<DrmClientMemInfo>, b: Seq<DrmClientMemInfo>) -> bool {
    forall|cnt: int|
        1 <= cnt ==> {
            let x = #[trigger] from_end(a, cnt);
            let y = from_end(b, cnt);
            &&& x.smem_used + y.smem_used <= u64::MAX
            &&& x.smem_rss + y.smem_rss <= u64::MAX
            &&& x.vram_used + y.vram_used <= u64::MAX
            &&& x.vram_rss + y.vram_rss <= u64::MAX
        }
}

/// Whether the sums of two memory histories, aligned on their newest
/// samples, fit in 64 bits.
pub fn acum_mem_info_fits(a: &VecDeque<DrmClientMemInfo>, b: &VecDeque<DrmClientMemInfo>) -> (r: bool)
    ensures
        r == acum_fits(a@, b@),
{
    broadcast use vstd::std_specs::vecdeque::group_vec_dequeue_axioms;
    let la = a.len();
    let lb = b.len();
    let n = if la >= lb {
        la
    } else {
        lb
    };
    let mut done: usize = 0;
    while done < n
        invariant
            done <= n,
            la == a@.len(),
            lb == b@.len(),
            n == if la >= lb {
                la
            } else {
                lb
            },
            forall|c: int|
                1 <= c <= done ==> {
                    let x = #[trigger] from_end(a@, c);
                    let y = from_end(b@, c);
                    &&& x.smem_used + y.smem_used <= u64::MAX
                    &&& x.smem_rss + y.smem_rss <= u64::MAX
                    &&& x.vram_used + y.vram_used <= u64::MAX
                    &&& x.vram_rss + y.vram_rss <= u64::MAX
                },
        decreases n - done,
    {
        let cnt = done + 1;
        let x = if cnt <= la {
            a[la - cnt]
        } else {
            DrmClientMemInfo::new()
        };
        let y = if cnt <= lb {
            b[lb - cnt]
        } else {
            DrmClientMemInfo::new()
        };
        assert(x == from_end(a@, cnt as int));
        assert(y == from_end(b@, cnt as int));
        if x.smem_used.checked_add(y.smem_used).is_none() || x.smem_rss.checked_add(y.smem_rss).is_none()
            || x.vram_used.checked_add(y.vram_used).is_none() || x.vram_rss.checked_add(
            y.vram_rss,
        ).is_none() {
            return false;
        }
        done = cnt;
    }
    assert forall|c: int| 1 <= c implies {
        let x = #[trigger] from_end(a@, c);
        let y = from_end(b@, c);
        &&& x.smem_used + y.smem_used <= u64::MAX
        &&& x.smem_rss + y.smem_rss <= u64::MAX
        &&& x.vram_used + y.vram_used <= u64::MAX
        &&& x.vram_rss + y.vram_rss <= u64::MAX
    } by {
        if c > done {
            assert(from_end(a@, c) == zero_mem_info());
            assert(from_end(b@, c) == zero_mem_info());
        }
    }
    true
}

/// Adds the memory history `mi` into `mem_info`, sample by sample, aligned
/// on their newest samples.
pub fn acum_mem_info(mem_info: &mut VecDeque<DrmClientMemInfo>, mi: &VecDeque<DrmClientMemInfo>)
    requires
        acum_fits(old(mem_info)@, mi@),
    ensures
        final(mem_info)@ == spec_acum_mem_info(old(mem_info)@, mi@),
{
    broadcast use vstd::std_specs::vecdeque::group_vec_dequeue_axioms;
    let ghost a = mem_info@;
    let dst_len = mem_info.len();
    let src_len = mi.len();
    let n = if dst_len >= src_len {
        dst_len
    } else {
        src_len
    };
    let ghost target = spec_acum_mem_info(a, mi@);
    let mut cnt = n;
    let mut new_vmi: VecDeque<DrmClientMemInfo> = VecDeque::new();
    while cnt > 0
        invariant
            cnt <= n,
            dst_len == a.len(),
            src_len == mi@.len(),
            n == target.len(),
            *mem_info == *old(mem_info),
            a == old(mem_info)@,
            target == spec_acum_mem_info(a, mi@),
            acum_fits(a, mi@),
            new_vmi@ == target.take(n - cnt),
        decreases cnt,
    {
        let mut nmi = DrmClientMemInfo::new();
        let ghost x = from_end(a, cnt as int);
        let ghost y = from_end(mi@, cnt as int);
        if dst_len >= cnt {
            nmi.acum(&mem_info[dst_len - cnt]);
        }
        if src_len >= cnt {
            nmi.acum(&mi[src_len - cnt]);
        }
        assert(nmi == target[n - cnt]);
        new_vmi.push_back(nmi);
        assert(target.take(n - cnt + 1) =~= target.take(n - cnt).push(target[n - cnt]));
        cnt = cnt - 1;
    }
    assert(target.take(n as int) =~= target);
    *mem_info = new_vmi;
}

pub open spec fn spec_card_from(devnode: Seq<char>) -> Seq<char> {
    if is_prefix("/dev/dri/"@, devnode) {
        devnode.skip(9)
    } else {
        devnode
    }
}

/// The card name of a device node: the node path without `/dev/dri/`.
pub fn card_from(devnode: &String) -> (r: String)
    ensures
        r@ == spec_card_from(devnode@),
{
    let v = chars_of(devnode.as_str());
    let n = v.len();
    assert(v@.subrange(0, n as int) =~= v@);
    proof {
        reveal_strlit("/dev/dri/");
    }
    if starts_with_lit(&v, 0, n, "/dev/dri/") {
        assert(devnode@.subrange(9, n as int) =~= devnode@.skip(9));
        string_of(devnode.as_str(), 9, n)
    } else {
        devnode.clone()
    }
}


/// The texts of the strings of `v`.
pub open spec fn names_of(v: Seq<String>) -> Seq<Seq<char>> {
    v.map_values(|s: String| s@)
}

/// The texts are in strictly ascending order: each appears once.
pub open spec fn strictly_sorted(s: Seq<Seq<char>>) -> bool {
    forall|i: int, j: int| 0 <= i < j < s.len() ==> lex_lt(#[trigger] s[i], #[trigger] s[j])
}

/// The engine names of a device after a refresh: those known so far,
/// `names`, and those the device reports now, `nengs`, each once, in
/// ascending order.
pub fn merge_eng_names(names: &Vec<String>, nengs: &Vec<String>) -> (r: Vec<String>)
    ensures
        strictly_sorted(names_of(r@)),
        forall|x: Seq<char>|
            #![trigger names_of(r@).contains(x)]
            #![trigger names_of(names@).contains(x)]
            #![trigger names_of(nengs@).contains(x)]
            names_of(r@).contains(x) <==> (names_of(names@).contains(x)
                || names_of(nengs@).contains(x)),
{
    broadcast use vstd::seq_lib::to_multiset_contains;
    let ghost nv = names_of(names@);
    let ghost ev = names_of(nengs@);
    let mut all: Vec<String> = Vec::new();
    let mut k: usize = 0;
    while k < names.len()
        invariant
            k <= names@.len(),
            nv == names_of(names@),
            names_of(all@) == nv.take(k as int),
        decreases names@.len() - k,
    {
        let ghost before = all@;
        let x = names[k].clone();
        all.push(x);
        assert(names_of(all@) =~= names_of(before).push(x@));
        assert(nv.take(k + 1) =~= nv.take(k as int).push(nv[k as int]));
        k = k + 1;
    }
    let mut j: usize = 0;
    while j < nengs.len()
        invariant
            j <= nengs@.len(),
            names@.len() == nv.len(),
            ev == names_of(nengs@),
            names_of(all@) == nv.take(nv.len() as int) + ev.take(j as int),
        decreases nengs@.len() - j,
    {
        let ghost before = all@;
        let x = nengs[j].clone();
        all.push(x);
        assert(names_of(all@) =~= names_of(before).push(x@));
        assert(ev.take(j + 1) =~= ev.take(j as int).push(ev[j as int]));
        j = j + 1;
    }
    let ghost av = names_of(all@);
    assert(av =~= nv + ev) by {
        assert(nv.take(nv.len() as int) =~= nv);
        assert(ev.take(j as int) =~= ev);
    }
    let sorted = sort_strings(all);
    let ghost sv = names_of(sorted@);
    let mut res: Vec<String> = Vec::new();
    let mut q: usize = 0;
    while q < sorted.len()
        invariant
            q <= sorted@.len(),
            sv == names_of(sorted@),
            lex_sorted(sv),
            strictly_sorted(names_of(res@)),
            q > 0 ==> res@.len() > 0 && names_of(res@).last() == sv[q - 1],
            q == 0 ==> res@.len() == 0,
            forall|x: Seq<char>|
                #![trigger names_of(res@).contains(x)]
                #![trigger sv.take(q as int).contains(x)]
                names_of(res@).contains(x) <==> sv.take(q as int).contains(x),
        decreases sorted@.len() - q,
    {
        let ghost rv = names_of(res@);
        let x = &sorted[q];
        let keep = res.len() == 0 || !crate::hwmon::str_eq(res[res.len() - 1].as_str(), x.as_str());
        proof {
            assert(sv.take(q + 1) =~= sv.take(q as int).push(sv[q as int]));
            assert(sv[q as int] == x@);
        }
        if keep {
            let ghost before = res@;
            res.push(x.clone());
            proof {
                let nr = names_of(res@);
                assert(nr =~= rv.push(x@));
                if q > 0 {
                    assert(rv.last() == sv[q - 1]);
                    assert(lex_le(sv[q - 1], sv[q as int]));
                    assert(rv.last() != x@);
                    assert(lex_lt(rv.last(), x@));
                    assert forall|a: int, b: int| 0 <= a < b < nr.len() implies lex_lt(#[trigger] nr[a], #[trigger] nr[b]) by {
                        if b < rv.len() {
                            assert(nr[a] == rv[a] && nr[b] == rv[b]);
                        } else {
                            assert(nr[b] == x@);
                            if a < rv.len() - 1 {
                                assert(lex_lt(rv[a], rv[rv.len() - 1]));
                                lemma_lex_lt_transitive(rv[a], rv[rv.len() - 1], x@);
                            }
                        }
                    }
                }
                assert forall|y: Seq<char>| #[trigger] nr.contains(y) <==> sv.take(q + 1).contains(y) by {
                    if nr.contains(y) {
                        let i = choose|i: int| 0 <= i < nr.len() && #[trigger] nr[i] == y;
                        if i < rv.len() {
                            assert(rv.contains(y));
                            assert(sv.take(q as int).contains(y));
                            let t = choose|t: int| 0 <= t < q && #[trigger] sv.take(q as int)[t] == y;
                            assert(sv.take(q + 1)[t] == y);
                        } else {
                            assert(sv.take(q + 1)[q as int] == y);
                        }
                    }
                    if sv.take(q + 1).contains(y) {
                        let t = choose|t: int| 0 <= t < q + 1 && #[trigger] sv.take(q + 1)[t] == y;
                        if t < q {
                            assert(sv.take(q as int)[t] == y);
                            assert(rv.contains(y));
                            let i = choose|i: int| 0 <= i < rv.len() && #[trigger] rv[i] == y;
                            assert(nr[i] == y);
                        } else {
                            assert(nr[rv.len() as int] == y);
                        }
                    }
                }
            }
        } else {
            proof {
                assert(rv.last() == x@);
                assert forall|y: Seq<char>| #[trigger] rv.contains(y) <==> sv.take(q + 1).contains(y) by {
                    if rv.contains(y) {
                        assert(sv.take(q as int).contains(y));
                        let t = choose|t: int| 0 <= t < q && #[trigger] sv.take(q as int)[t] == y;
                        assert(sv.take(q + 1)[t] == y);
                    }
                    if sv.take(q + 1).contains(y) {
                        let t = choose|t: int| 0 <= t < q + 1 && #[trigger] sv.take(q + 1)[t] == y;
                        if t < q {
                            assert(sv.take(q as int)[t] == y);
                        } else {
                            assert(rv[rv.len() - 1] == y);
                        }
                    }
                }
            }
        }
        q = q + 1;
    }
    proof {
        assert(sv.take(q as int) =~= sv);
        assert forall|x: Seq<char>| #[trigger] sv.contains(x) <==> (nv.contains(x) || ev.contains(x)) by {
            assert(sv.to_multiset() == av.to_multiset());
            assert(sv.contains(x) <==> sv.to_multiset().count(x) > 0);
            assert(av.contains(x) <==> av.to_multiset().count(x) > 0);
            if av.contains(x) {
                let i = choose|i: int| 0 <= i < av.len() && #[trigger] av[i] == x;
                if i < nv.len() {
                    assert(nv[i] == x);
                } else {
                    assert(ev[i - nv.len()] == x);
                }
            }
            if nv.contains(x) {
                let i = choose|i: int| 0 <= i < nv.len() && #[trigger] nv[i] == x;
                assert(av[i] == x);
            }
            if ev.contains(x) {
                let i = choose|i: int| 0 <= i < ev.len() && #[trigger] ev[i] == x;
                assert(av[nv.len() + i] == x);
            }
        }
    }
    res
}

/// The card names of the device nodes `nodes`, joined by `, `.
pub open spec fn nodes_text(nodes: Seq<Seq<char>>) -> Seq<char>
    decreases nodes.len(),
{
    if nodes.len() <= 1 {
        if nodes.len() == 1 {
            spec_card_from(nodes[0])
        } else {
            Seq::empty()
        }
    } else {
        nodes_text(nodes.drop_last()) + ", "@ + spec_card_from(nodes.last())
    }
}

/// The device nodes of a device as shown: their card names, in order,
/// joined by `, ` (a device has at least one node).
pub fn dev_nodes_text(devnodes: &Vec<String>) -> (r: String)
    requires
        devnodes@.len() > 0,
    ensures
        r@ == nodes_text(names_of(devnodes@)),
{
    proof {
        reveal_strlit(", ");
    }
    let mut r = card_from(&devnodes[0]);
    let mut k: usize = 1;
    while k < devnodes.len()
        invariant
            1 <= k <= devnodes@.len(),
            r@ == nodes_text(names_of(devnodes@).take(k as int)),
        decreases devnodes@.len() - k,
    {
        let cn = card_from(&devnodes[k]);
        r.append(", ");
        r.append(cn.as_str());
        proof {
            let ns = names_of(devnodes@);
            assert(ns.take(k + 1).drop_last() =~= ns.take(k as int));
            assert(ns.take(k + 1).last() == devnodes@[k as int]@);
        }
        k = k + 1;
    }
    proof {
        assert(names_of(devnodes@).take(k as int) =~= names_of(devnodes@));
    }
    r
}

/// How a device is named: `<vendor> <device> (rev <revision>)`, or its PCI
/// slot when its vendor is not known.
pub open spec fn spec_device_label(vendor: Seq<char>, device: Seq<char>, revision: Seq<char>, pci_dev: Seq<char>) -> Seq<char> {
    if vendor.len() > 0 {
        vendor + " "@ + device + " (rev "@ + revision + ")"@
    } else {
        pci_dev
    }
}

pub fn device_label(vendor: &str, device: &str, revision: &str, pci_dev: &str) -> (r: String)
    ensures
        r@ == spec_device_label(vendor@, device@, revision@, pci_dev@),
{
    if vendor.unicode_len() > 0 {
        let mut r = String::from_str(vendor);
        r.append(" ");
        r.append(device);
        r.append(" (rev ");
        r.append(revision);
        r.append(")");
        r
    } else {
        String::from_str(pci_dev)
    }
}

proof fn lemma_insert_contains(s: Seq<u32>, q: int, p: u32, x: u32)
    requires
        0 <= q <= s.len(),
    ensures
        s.insert(q, p).contains(x) <==> (s.contains(x) || x == p),
{
    let t = s.insert(q, p);
    if t.contains(x) && x != p {
        let i = choose|i: int| 0 <= i < t.len() && t[i] == x;
        if i < q {
            assert(s[i] == x);
        } else {
            assert(s[i - 1] == x);
        }
    }
    if s.contains(x) {
        let i = choose|i: int| 0 <= i < s.len() && s[i] == x;
        if i < q {
            assert(t[i] == x);
        } else {
            assert(t[i + 1] == x);
        }
    }
    if x == p {
        assert(t[q] == x);
    }
}

/// The distinct values of `pids`, in ascending order.
pub fn pids_in_order(pids: &Vec<u32>) -> (r: Vec<u32>)
    ensures
        forall|i: int, j: int| 0 <= i < j < r@.len() ==> r@[i] < r@[j],
        forall|p: u32| r@.contains(p) <==> pids@.contains(p),
{
    let mut r: Vec<u32> = Vec::new();
    let mut k: usize = 0;
    while k < pids.len()
        invariant
            k <= pids@.len(),
            forall|i: int, j: int| 0 <= i < j < r@.len() ==> r@[i] < r@[j],
            forall|p: u32| r@.contains(p) <==> pids@.take(k as int).contains(p),
        decreases pids@.len() - k,
    {
        let p = pids[k];
        let mut q: usize = 0;
        while q < r.len() && r[q] < p
            invariant
                q <= r@.len(),
                forall|i: int| 0 <= i < q ==> r@[i] < p,
            decreases r@.len() - q,
        {
            q = q + 1;
        }
        let ghost before = r@;
        if q == r.len() || r[q] != p {
            r.insert(q, p);
            proof {
                assert forall|i: int, j: int| 0 <= i < j < r@.len() implies r@[i] < r@[j] by {
                    if j < q {
                        assert(r@[i] == before[i] && r@[j] == before[j]);
                    } else if j == q {
                        assert(r@[i] == before[i]);
                    } else if i < q {
                        assert(r@[i] == before[i] && r@[j] == before[j - 1]);
                        assert(before[q as int] > p);
                    } else if i == q {
                        assert(r@[j] == before[j - 1]);
                        assert(before[q as int] > p);
                        assert(before[q as int] <= before[j - 1]);
                    } else {
                        assert(r@[i] == before[i - 1] && r@[j] == before[j - 1]);
                    }
                }
                assert(r@ =~= before.insert(q as int, p));
                assert forall|x: u32| r@.contains(x) <==> (before.contains(x) || x == p) by {
                    lemma_insert_contains(before, q as int, p, x);
                }
            }
        } else {
            assert forall|x: u32| r@.contains(x) <==> (before.contains(x) || x == p) by {
                if x == p {
                    assert(before[q as int] == p);
                }
            }
        }
        proof {
            let t0 = pids@.take(k as int);
            let t1 = pids@.take(k + 1);
            assert(t1 =~= t0.push(p));
            assert forall|x: u32| t1.contains(x) <==> (t0.contains(x) || x == p) by {
                if t1.contains(x) && x != p {
                    let j = choose|j: int| 0 <= j < t1.len() && t1[j] == x;
                    assert(t0[j] == x);
                }
                if t0.contains(x) {
                    let j = choose|j: int| 0 <= j < t0.len() && t0[j] == x;
                    assert(t1[j] == x);
                }
                if x == p {
                    assert(t1[k as int] == x);
                }
            }
            assert forall|x: u32| r@.contains(x) <==> t1.contains(x) by {
                assert(before.contains(x) <==> t0.contains(x));
                assert(r@.contains(x) <==> (before.contains(x) || x == p));
                assert(t1.contains(x) <==> (t0.contains(x) || x == p));
            }
        }
        k = k + 1;
    }
    assert(pids@.take(k as int) =~= pids@);
    r
}

/// The positions, in ascending order, of the entries of `pids` equal to
/// `pid`.
pub fn pid_members(pids: &Vec<u32>, pid: u32) -> (r: Vec<usize>)
    ensures
        forall|i: int, j: int| 0 <= i < j < r@.len() ==> r@[i] < r@[j],
        forall|i: int| 0 <= i < r@.len() ==> r@[i] < pids@.len() && pids@[r@[i] as int] == pid,
        forall|x: int| 0 <= x < pids@.len() && pids@[x] == pid ==> r@.contains(x as usize),
{
    let mut r: Vec<usize> = Vec::new();
    let mut k: usize = 0;
    while k < pids.len()
        invariant
            k <= pids@.len(),
            forall|i: int, j: int| 0 <= i < j < r@.len() ==> r@[i] < r@[j],
            forall|i: int| 0 <= i < r@.len() ==> r@[i] < k && pids@[r@[i] as int] == pid,
            forall|x: int| 0 <= x < k && pids@[x] == pid ==> r@.contains(x as usize),
        decreases pids@.len() - k,
    {
        if pids[k] == pid {
            let ghost before = r@;
            r.push(k);
            proof {
                assert forall|x: int| 0 <= x < k + 1 && pids@[x] == pid implies r@.contains(x as usize) by {
                    if x < k {
                        let i = choose|i: int| 0 <= i < before.len() && before[i] == x as usize;
                        assert(r@[i] == x as usize);
                    } else {
                        assert(r@[before.len() as int] == k);
                    }
                }
            }
        }
        k = k + 1;
    }
    r
}

/// Whether the stats of a process's client can be added to stats of a
/// process: only stats of one client, of the same process (pid, command
/// name and command line).
pub fn acum_allowed(
    dst_pid: u32,
    dst_comm: &str,
    dst_cmdline: &str,
    src_pid: u32,
    src_comm: &str,
    src_cmdline: &str,
    src_nr_clients: usize,
) -> (r: bool)
    ensures
        r == (dst_pid == src_pid && dst_comm@ == src_comm@ && dst_cmdline@ == src_cmdline@ && src_nr_clients == 1),
{
    dst_pid == src_pid && crate::hwmon::str_eq(dst_comm, src_comm) && crate::hwmon::str_eq(dst_cmdline, src_cmdline)
        && src_nr_clients == 1
}

/// Adds what identifies a client's stats to the stats of a process, when
/// [`acum_allowed`] lets them be added: the client joins the process's
/// `clients`, and the process is active when either was. Otherwise nothing
/// changes. Returns whether the stats were added, and so whether their
/// histories are to be summed as well.
pub fn acum_client_ids(
    clients: &mut Vec<(u32, u32)>,
    is_active: &mut bool,
    dst_pid: u32,
    dst_comm: &str,
    dst_cmdline: &str,
    src_pid: u32,
    src_comm: &str,
    src_cmdline: &str,
    src_clients: &Vec<(u32, u32)>,
    src_active: bool,
) -> (r: bool)
    ensures
        r == (dst_pid == src_pid && dst_comm@ == src_comm@ && dst_cmdline@ == src_cmdline@
            && src_clients@.len() == 1),
        r ==> final(clients)@ == old(clients)@.push(src_clients@[0]) && *final(is_active) == (*old(
            is_active,
        ) || src_active),
        !r ==> final(clients)@ == old(clients)@ && *final(is_active) == *old(is_active),
{
    if !acum_allowed(dst_pid, dst_comm, dst_cmdline, src_pid, src_comm, src_cmdline, src_clients.len()) {
        return false;
    }
    clients.push(src_clients[0]);
    *is_active = *is_active || src_active;
    true
}

/// The first of the stats, of the processes `pids` and for the clients
/// `clients`, that are of just the one client `key` of the process `pid`.
pub fn find_single_client(pids: &Vec<u32>, clients: &Vec<Vec<(u32, u32)>>, pid: u32, key: (u32, u32)) -> (r: Option<usize>)
    requires
        pids@.len() == clients@.len(),
    ensures
        match r {
            Some(k) => k < pids@.len() && single_client_of(pids@[k as int], clients@[k as int]@, pid, key) && forall|j: int|
                0 <= j < k ==> !single_client_of(#[trigger] pids@[j], clients@[j]@, pid, key),
            None => forall|j: int| 0 <= j < pids@.len() ==> !single_client_of(#[trigger] pids@[j], clients@[j]@, pid, key),
        },
{
    let mut k: usize = 0;
    while k < pids.len()
        invariant
            k <= pids@.len() == clients@.len(),
            forall|j: int| 0 <= j < k ==> !single_client_of(#[trigger] pids@[j], clients@[j]@, pid, key),
        decreases pids@.len() - k,
    {
        let cs = &clients[k];
        if cs.len() == 1 && pids[k] == pid && cs[0].0 == key.0 && cs[0].1 == key.1 {
            return Some(k);
        }
        k = k + 1;
    }
    None
}

/// Stats of the process `p` for the clients `cs` are those of just the one
/// client `key` of the process `pid`.
pub open spec fn single_client_of(p: u32, cs: Seq<(u32, u32)>, pid: u32, key: (u32, u32)) -> bool {
    cs.len() == 1 && p == pid && cs[0] == key
}

/// The first of the client keys `keys` equal to `key`.
pub fn client_key_pos(keys: &Vec<(u32, u32)>, key: (u32, u32)) -> (r: Option<usize>)
    ensures
        match r {
            Some(k) => k < keys@.len() && keys@[k as int] == key && forall|j: int| 0 <= j < k ==> keys@[j] != key,
            None => forall|j: int| 0 <= j < keys@.len() ==> keys@[j] != key,
        },
{
    let mut k: usize = 0;
    while k < keys.len()
        invariant
            k <= keys@.len(),
            forall|j: int| 0 <= j < k ==> keys@[j] != key,
        decreases keys@.len() - k,
    {
        if keys[k].0 == key.0 && keys[k].1 == key.1 {
            return Some(k);
        }
        k = k + 1;
    }
    None
}

} // verus!
