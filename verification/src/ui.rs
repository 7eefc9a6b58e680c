//! Selection state of the interactive screens: which device tab, which
//! device statistics chart and which client statistics chart is shown, and
//! how the keys move between them.
use vstd::prelude::*;

verus! {

/// The client shown in the client screen: its device and, once known, its
/// process and key.
#[derive(Debug)]
pub struct DrmClientSelected {
    pub pci_dev: String,
    pub is_dgfx: bool,
    pub pid: u32,
    pub client_key: Option<(u32, u32)>,
}

impl DrmClientSelected {
    pub fn new(pci_dev: String, is_dgfx: bool, pid: u32, client_key: Option<(u32, u32)>) -> (r:
        DrmClientSelected)
        ensures
            r.pci_dev == pci_dev,
            r.is_dgfx == is_dgfx,
            r.pid == pid,
            r.client_key == client_key,
    {
        DrmClientSelected { pci_dev, is_dgfx, pid, client_key }
    }
}

pub const CLIENT_STATS_MEMINFO: u8 = 0;
pub const CLIENT_STATS_ENGINES: u8 = 1;
pub const CLIENT_STATS_CPU: u8 = 2;
pub const CLIENT_STATS_TOTAL: u8 = 3;

pub const CLIENT_STATS_OP_NEXT: u8 = 0;
pub const CLIENT_STATS_OP_PREV: u8 = 1;

/// Which of a client's charts is shown, and which way the selection last
/// moved.
#[derive(Debug)]
pub struct ClientStatsState {
    pub sel: u8,
    pub last_op: u8,
}

/// The chart after `sel`, wrapping around.
pub open spec fn client_stats_next(sel: u8) -> u8 {
    ((sel + 1) % (CLIENT_STATS_TOTAL as int)) as u8
}

/// The chart before `sel`, wrapping around.
pub open spec fn client_stats_prev(sel: u8) -> u8 {
    if sel == 0 {
        (CLIENT_STATS_TOTAL - 1) as u8
    } else {
        (sel - 1) as u8
    }
}

impl ClientStatsState {
    /// A chart is selected.
    pub open spec fn wf(&self) -> bool {
        self.sel < CLIENT_STATS_TOTAL
    }

    pub fn next(&mut self)
        requires
            old(self).wf(),
        ensures
            final(self).wf(),
            final(self).sel == client_stats_next(old(self).sel),
            final(self).last_op == CLIENT_STATS_OP_NEXT,
    {
        self.sel = (self.sel + 1) % CLIENT_STATS_TOTAL;
        self.last_op = CLIENT_STATS_OP_NEXT;
    }

    pub fn previous(&mut self)
        requires
            old(self).wf(),
        ensures
            final(self).wf(),
            final(self).sel == client_stats_prev(old(self).sel),
            final(self).last_op == CLIENT_STATS_OP_PREV,
    {
        self.sel = if self.sel == 0 {
            CLIENT_STATS_TOTAL - 1
        } else {
            self.sel - 1
        };
        self.last_op = CLIENT_STATS_OP_PREV;
    }

    /// Moves the selection once more the way it last moved.
    pub fn repeat_op(&mut self)
        requires
            old(self).wf(),
        ensures
            final(self).wf(),
            final(self).last_op == (if old(self).last_op == CLIENT_STATS_OP_NEXT {
                CLIENT_STATS_OP_NEXT
            } else {
                CLIENT_STATS_OP_PREV
            }),
            final(self).sel == if old(self).last_op == CLIENT_STATS_OP_NEXT {
                client_stats_next(old(self).sel)
            } else {
                client_stats_prev(old(self).sel)
            },
    {
        if self.last_op == CLIENT_STATS_OP_NEXT {
            self.next();
        } else {
            self.previous();
        }
    }

    pub fn new() -> (r: ClientStatsState)
        ensures
            r.wf(),
            r.sel == CLIENT_STATS_MEMINFO,
            r.last_op == CLIENT_STATS_OP_NEXT,
    {
        ClientStatsState { sel: CLIENT_STATS_MEMINFO, last_op: CLIENT_STATS_OP_NEXT }
    }
}

/// Moving to the next client chart and back, or back and then on, returns
/// to the chart one started from.
pub proof fn lemma_client_stats_next_prev(sel: u8)
    requires
        sel < CLIENT_STATS_TOTAL,
    ensures
        client_stats_prev(client_stats_next(sel)) == sel,
        client_stats_next(client_stats_prev(sel)) == sel,
        client_stats_next(sel) < CLIENT_STATS_TOTAL,
        client_stats_prev(sel) < CLIENT_STATS_TOTAL,
{
}

/// Moving to the next client chart as many times as there are charts
/// returns to the chart one started from.
pub proof fn lemma_client_stats_cycle(sel: u8)
    requires
        sel < CLIENT_STATS_TOTAL,
    ensures
        client_stats_next(client_stats_next(client_stats_next(sel))) == sel,
{
}

/// The device tabs and which one is selected.
#[derive(Debug)]
pub struct DevicesTabState {
    pub devs: Vec<String>,
    pub sel: usize,
}

/// The tab after `sel` among `n`, wrapping around.
pub open spec fn tab_next(sel: usize, n: nat) -> usize {
    if n == 0 {
        sel
    } else {
        ((sel + 1) % (n as int)) as usize
    }
}

/// The tab before `sel` among `n`, wrapping around.
pub open spec fn tab_prev(sel: usize, n: nat) -> usize {
    if n == 0 {
        sel
    } else if sel == 0 {
        (n - 1) as usize
    } else {
        (sel - 1) as usize
    }
}

impl DevicesTabState {
    /// The selection is a tab, or 0 when there is none.
    pub open spec fn wf(&self) -> bool {
        if self.devs@.len() == 0 {
            self.sel == 0
        } else {
            self.sel < self.devs@.len()
        }
    }

    pub fn next(&mut self)
        requires
            old(self).wf(),
        ensures
            final(self).wf(),
            final(self).devs == old(self).devs,
            final(self).sel == tab_next(old(self).sel, old(self).devs@.len()),
    {
        if self.devs.len() == 0 {
            return;
        }
        self.sel = (self.sel + 1) % self.devs.len();
    }

    pub fn previous(&mut self)
        requires
            old(self).wf(),
        ensures
            final(self).wf(),
            final(self).devs == old(self).devs,
            final(self).sel == tab_prev(old(self).sel, old(self).devs@.len()),
    {
        if self.devs.len() == 0 {
            return;
        }
        self.sel = if self.sel == 0 {
            self.devs.len() - 1
        } else {
            self.sel - 1
        };
    }

    pub fn is_empty(&self) -> (r: bool)
        ensures
            r == (self.devs@.len() == 0),
    {
        self.devs.len() == 0
    }

    pub fn new(devs: Vec<String>) -> (r: DevicesTabState)
        ensures
            r.wf(),
            r.devs == devs,
            r.sel == 0,
    {
        DevicesTabState { devs, sel: 0 }
    }
}

/// Moving to the next device tab and back, or back and then on, returns to
/// the tab one started from.
pub proof fn lemma_tab_next_prev(sel: usize, n: nat)
    requires
        n == 0 ==> sel == 0,
        n > 0 ==> sel < n,
        n <= usize::MAX,
    ensures
        tab_prev(tab_next(sel, n), n) == sel,
        tab_next(tab_prev(sel, n), n) == sel,
{
    if n > 0 {
        if sel + 1 < n {
            assert((sel + 1) % (n as int) == sel + 1) by (nonlinear_arith)
                requires
                    0 <= sel + 1 < n,
            ;
        } else {
            assert((sel + 1) % (n as int) == 0) by (nonlinear_arith)
                requires
                    sel + 1 == n,
                    n > 0,
            ;
        }
        if sel == 0 {
            assert(((n - 1) + 1) % (n as int) == 0) by (nonlinear_arith)
                requires
                    n > 0,
            ;
        } else {
            assert((sel as int) % (n as int) == sel) by (nonlinear_arith)
                requires
                    0 <= sel < n,
            ;
        }
    }
}

pub const DEVICE_STATS_FREQS: u8 = 0;
pub const DEVICE_STATS_POWER: u8 = 1;
pub const DEVICE_STATS_MEMINFO: u8 = 2;
pub const DEVICE_STATS_ENGINES: u8 = 3;
pub const DEVICE_STATS_TOTAL: u8 = 4;

pub const DEVICE_STATS_OP_NEXT: i8 = 0;
pub const DEVICE_STATS_OP_PREV: i8 = 1;

/// Which group of device charts is shown, which chart of the group, and a
/// move asked for but not yet made (-1 for none).
#[derive(Debug)]
pub struct DeviceStatsState {
    pub sel: u8,
    pub sub_sel: u8,
    pub req_op: i8,
}

/// The group after `sel`, wrapping around.
pub open spec fn dev_stats_next(sel: u8) -> u8 {
    ((sel + 1) % (DEVICE_STATS_TOTAL as int)) as u8
}

/// The group before `sel`, wrapping around.
pub open spec fn dev_stats_prev(sel: u8) -> u8 {
    if sel == 0 {
        (DEVICE_STATS_TOTAL - 1) as u8
    } else {
        (sel - 1) as u8
    }
}

/// The next group that has charts, skipping one empty group.
pub open spec fn dev_stats_next_group(sel: u8, nr: Seq<u8>) -> u8 {
    let s = dev_stats_next(sel);
    if nr[s as int] == 0 {
        dev_stats_next(s)
    } else {
        s
    }
}

/// The previous group that has charts, skipping one empty group.
pub open spec fn dev_stats_prev_group(sel: u8, nr: Seq<u8>) -> u8 {
    let s = dev_stats_prev(sel);
    if nr[s as int] == 0 {
        dev_stats_prev(s)
    } else {
        s
    }
}

/// The selection after a move on: the next chart of the group, else the
/// first chart of the next group.
pub open spec fn dev_stats_after_next(sel: u8, sub_sel: u8, nr: Seq<u8>) -> (u8, u8) {
    let cur = nr[sel as int];
    if cur > 1 && sub_sel + 1 < cur {
        (sel, (sub_sel + 1) as u8)
    } else {
        (dev_stats_next_group(sel, nr), 0)
    }
}

/// The selection after a move back: the previous chart of the group, else
/// the last chart of the previous group.
pub open spec fn dev_stats_after_prev(sel: u8, sub_sel: u8, nr: Seq<u8>) -> (u8, u8) {
    let cur = nr[sel as int];
    if cur > 1 && sub_sel > 0 {
        (sel, (sub_sel - 1) as u8)
    } else {
        let g = dev_stats_prev_group(sel, nr);
        (g, (nr[g as int] - 1) as u8)
    }
}

impl DeviceStatsState {
    /// A group is selected.
    pub open spec fn wf(&self) -> bool {
        self.sel < DEVICE_STATS_TOTAL
    }

    /// Moves on, `nr_charts` giving the number of charts of each group.
    pub fn exec_next(&mut self, nr_charts: &Vec<u8>)
        requires
            old(self).wf(),
            nr_charts@.len() >= DEVICE_STATS_TOTAL,
            old(self).sub_sel < u8::MAX,
        ensures
            final(self).wf(),
            final(self).req_op == old(self).req_op,
            (final(self).sel, final(self).sub_sel) == dev_stats_after_next(
                old(self).sel,
                old(self).sub_sel,
                nr_charts@,
            ),
    {
        let nr_cur = nr_charts[self.sel as usize];
        if nr_cur > 1 && (self.sub_sel + 1) < nr_cur {
            self.sub_sel = self.sub_sel + 1;
        } else {
            self.sub_sel = 0;
            self.sel = (self.sel + 1) % DEVICE_STATS_TOTAL;
            if nr_charts[self.sel as usize] == 0 {
                self.sel = (self.sel + 1) % DEVICE_STATS_TOTAL;
            }
        }
    }

    /// Moves back, `nr_charts` giving the number of charts of each group.
    pub fn exec_prev(&mut self, nr_charts: &Vec<u8>)
        requires
            old(self).wf(),
            nr_charts@.len() >= DEVICE_STATS_TOTAL,
            !(nr_charts@[old(self).sel as int] > 1 && old(self).sub_sel > 0) ==> nr_charts@[dev_stats_prev_group(
                old(self).sel,
                nr_charts@,
            ) as int] > 0,
        ensures
            final(self).wf(),
            final(self).req_op == old(self).req_op,
            (final(self).sel, final(self).sub_sel) == dev_stats_after_prev(
                old(self).sel,
                old(self).sub_sel,
                nr_charts@,
            ),
    {
        let nr_cur = nr_charts[self.sel as usize];
        if nr_cur > 1 && self.sub_sel > 0 {
            self.sub_sel = self.sub_sel - 1;
        } else {
            self.sel = if self.sel == 0 {
                DEVICE_STATS_TOTAL - 1
            } else {
                self.sel - 1
            };
            if nr_charts[self.sel as usize] == 0 {
                self.sel = if self.sel == 0 {
                    DEVICE_STATS_TOTAL - 1
                } else {
                    self.sel - 1
                };
            }
            self.sub_sel = nr_charts[self.sel as usize] - 1;
        }
    }

    /// Whether the move asked for can be made with `nr_charts` charts per
    /// group: a move on needs room for one more chart, a move back into the
    /// previous group needs that group to have a chart.
    pub fn req_allowed(&self, nr_charts: &Vec<u8>) -> (r: bool)
        requires
            self.wf(),
            nr_charts@.len() >= DEVICE_STATS_TOTAL,
        ensures
            r == ((self.req_op == DEVICE_STATS_OP_NEXT ==> self.sub_sel < u8::MAX) && (self.req_op
                == DEVICE_STATS_OP_PREV ==> (!(nr_charts@[self.sel as int] > 1 && self.sub_sel > 0)
                ==> nr_charts@[dev_stats_prev_group(self.sel, nr_charts@) as int] > 0))),
    {
        if self.req_op == DEVICE_STATS_OP_NEXT {
            return self.sub_sel < u8::MAX;
        }
        if self.req_op == DEVICE_STATS_OP_PREV {
            if nr_charts[self.sel as usize] > 1 && self.sub_sel > 0 {
                return true;
            }
            let s = if self.sel == 0 {
                DEVICE_STATS_TOTAL - 1
            } else {
                self.sel - 1
            };
            let g = if nr_charts[s as usize] == 0 {
                if s == 0 {
                    DEVICE_STATS_TOTAL - 1
                } else {
                    s - 1
                }
            } else {
                s
            };
            return nr_charts[g as usize] > 0;
        }
        true
    }

    /// Makes the move asked for, if any, and clears the request.
    pub fn exec_req(&mut self, nr_charts: &Vec<u8>)
        requires
            old(self).wf(),
            nr_charts@.len() >= DEVICE_STATS_TOTAL,
            old(self).req_op == DEVICE_STATS_OP_NEXT ==> old(self).sub_sel < u8::MAX,
            old(self).req_op == DEVICE_STATS_OP_PREV ==> (!(nr_charts@[old(self).sel as int] > 1
                && old(self).sub_sel > 0) ==> nr_charts@[dev_stats_prev_group(
                old(self).sel,
                nr_charts@,
            ) as int] > 0),
        ensures
            final(self).wf(),
            old(self).req_op < 0 ==> *final(self) == *old(self),
            old(self).req_op >= 0 ==> final(self).req_op == -1,
            old(self).req_op == DEVICE_STATS_OP_NEXT ==> (final(self).sel, final(self).sub_sel)
                == dev_stats_after_next(old(self).sel, old(self).sub_sel, nr_charts@),
            old(self).req_op == DEVICE_STATS_OP_PREV ==> (final(self).sel, final(self).sub_sel)
                == dev_stats_after_prev(old(self).sel, old(self).sub_sel, nr_charts@),
            old(self).req_op > DEVICE_STATS_OP_PREV ==> (final(self).sel, final(self).sub_sel) == (
            old(self).sel, old(self).sub_sel),
    {
        if self.req_op < 0 {
            return;
        }
        if self.req_op == DEVICE_STATS_OP_NEXT {
            self.exec_next(nr_charts);
        } else if self.req_op == DEVICE_STATS_OP_PREV {
            self.exec_prev(nr_charts);
        }
        self.req_op = -1;
    }

    pub fn req_next(&mut self)
        ensures
            *final(self) == (DeviceStatsState { req_op: DEVICE_STATS_OP_NEXT, ..*old(self) }),
    {
        self.req_op = DEVICE_STATS_OP_NEXT;
    }

    pub fn req_previous(&mut self)
        ensures
            *final(self) == (DeviceStatsState { req_op: DEVICE_STATS_OP_PREV, ..*old(self) }),
    {
        self.req_op = DEVICE_STATS_OP_PREV;
    }

    pub fn new() -> (r: DeviceStatsState)
        ensures
            r.wf(),
            r.sel == DEVICE_STATS_FREQS,
            r.sub_sel == 0,
            r.req_op == -1,
    {
        DeviceStatsState { sel: DEVICE_STATS_FREQS, sub_sel: 0, req_op: -1 }
    }
}

/// With every group holding one chart, moving on and then back returns to
/// the group one started from.
pub proof fn lemma_dev_stats_next_prev(sel: u8, nr: Seq<u8>)
    requires
        sel < DEVICE_STATS_TOTAL,
        nr.len() >= DEVICE_STATS_TOTAL,
        forall|g: int| 0 <= g < DEVICE_STATS_TOTAL ==> nr[g] == 1,
    ensures
        dev_stats_after_prev(dev_stats_after_next(sel, 0, nr).0, 0, nr) == (sel, 0u8),
{
}

/// Within a group of several charts, moving on and then back returns to the
/// chart one started from.
pub proof fn lemma_dev_stats_sub_next_prev(sel: u8, sub_sel: u8, nr: Seq<u8>)
    requires
        sel < DEVICE_STATS_TOTAL,
        nr.len() >= DEVICE_STATS_TOTAL,
        sub_sel + 1 < nr[sel as int],
    ensures
        ({
            let (s, ss) = dev_stats_after_next(sel, sub_sel, nr);
            dev_stats_after_prev(s, ss, nr) == (sel, sub_sel)
        }),
{
}

} // verus!
