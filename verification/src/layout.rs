//! The tracked-panel list and its geometry: merging snapshots into panels,
//! placing visible panels on the terminal, and the scroll window over them.

use vstd::prelude::*;
use vstd::seq_lib::to_multiset_contains;

use crate::config::{spec_graph_height, spec_packer, spec_visible_count, Config, Pack};
use crate::counter::{counter_added, SAMPLE_MAX};
use crate::panel::{
    live_pids_unique, panel_dimmed, panel_mark_toggled, panel_maxes_reset, panel_wf,
    panels_sorted, sort_panels, Process,
};

verus! {

/// One process's share of a snapshot, as plain values.
pub struct ProcSample {
    /// The process id.
    pub pid: u64,
    /// CPU usage in whole percent.
    pub cpu: u64,
    /// Memory use in kilobytes.
    pub mem: u64,
    /// Total kilobytes read and written since the process started.
    pub io_r_total: u64,
    pub io_w_total: u64,
    /// Kilobytes read and written since the previous snapshot.
    pub io_r_delta: u64,
    pub io_w_delta: u64,
    /// Full command line.
    pub cmd: String,
    /// Path to the executable.
    pub exe: String,
    /// Short name.
    pub title: String,
}

/// A scroll request over the panel list.
pub enum Scroll {
    /// Jump to the first panel.
    Home,
    /// Jump so the last page is shown.
    End,
    /// Move up by the given number of panels, saturating at the top.
    Up(usize),
    /// Move down by the given number of panels, saturating at the bottom.
    Down(usize),
}

/// The whole dashboard state: terminal size, tracked panels, totals, and
/// the scroll position.
pub struct Layout {
    /// Terminal columns.
    pub w: u16,
    /// Terminal rows.
    pub h: u16,
    /// The tracked panels, in display order after every merge.
    pub procs: Vec<Process>,
    /// The display configuration.
    pub config: Config,
    /// Total CPU usage percentage over all processors.
    pub cpu_usage: u64,
    /// Used memory as a percentage of total memory.
    pub mem_usage: u64,
    /// Index of the first panel considered for display.
    pub top_item: usize,
    /// When the user marked a point in time, that timestamp.
    pub mark_since: Option<u64>,
    /// Whether the top line shows the key help instead of the totals.
    pub show_help: bool,
}

/// Every panel is well-formed and no two live panels share a process id.
pub open spec fn layout_wf(l: Layout) -> bool {
    &&& live_pids_unique(l.procs@)
    &&& forall|i: int| 0 <= i < l.procs@.len() ==> panel_wf(#[trigger] l.procs@[i])
}

/// How many panels are currently hidden (zero-width rectangle).
pub open spec fn count_hidden(s: Seq<Process>) -> nat
    decreases s.len(),
{
    if s.len() == 0 {
        0
    } else {
        count_hidden(s.drop_last()) + if s.last().w == 0 {
            1nat
        } else {
            0nat
        }
    }
}

/// How many panels are dead.
pub open spec fn count_dead(s: Seq<Process>) -> nat
    decreases s.len(),
{
    if s.len() == 0 {
        0
    } else {
        count_dead(s.drop_last()) + if s.last().dead {
            1nat
        } else {
            0nat
        }
    }
}

/// Where the scroll window moves: every operation clamps the top item into
/// `[0, total - shown]`, is a no-op when nothing is hidden, and reports
/// whether the view changed.
pub open spec fn spec_scroll(top: nat, total: nat, hidden: nat, dir: Scroll) -> (nat, bool)
    recommends
        hidden <= total,
{
    if hidden == 0 {
        (top, false)
    } else {
        let shown = (total - hidden) as nat;
        match dir {
            Scroll::Home => (0nat, top != 0),
            Scroll::End => ((total - shown) as nat, top < total - shown),
            Scroll::Up(s) => {
                if top == 0 {
                    (top, false)
                } else if s >= top {
                    (0nat, true)
                } else {
                    ((top - s) as nat, true)
                }
            },
            Scroll::Down(s) => {
                if top + shown >= total {
                    (top, false)
                } else if top + shown + s > total {
                    ((total - shown) as nat, true)
                } else {
                    ((top + s) as nat, true)
                }
            },
        }
    }
}

/// Law: scrolling never moves the top item outside `[0, total - shown]`
/// (that bound equals the hidden-panel count), and a window that already
/// shows everything never moves.
pub proof fn lemma_scroll_in_window(top: nat, total: nat, hidden: nat, dir: Scroll)
    requires
        hidden <= total,
        top <= hidden,
    ensures
        spec_scroll(top, total, hidden, dir).0 <= hidden,
        hidden == 0 ==> spec_scroll(top, total, hidden, dir) == (top, false),
{
}

impl Layout {
    /// A dashboard of the given terminal size with no panels yet.
    pub fn new(config: Config, w: u16, h: u16) -> (l: Layout)
        ensures
            l.w == w,
            l.h == h,
            l.procs@.len() == 0,
            l.config == config,
            l.cpu_usage == 0,
            l.mem_usage == 0,
            l.top_item == 0,
            l.mark_since is None,
            !l.show_help,
            layout_wf(l),
    {
        Layout {
            w,
            h,
            procs: Vec::new(),
            config,
            cpu_usage: 0,
            mem_usage: 0,
            top_item: 0,
            mark_since: None,
            show_help: false,
        }
    }

    /// Recalculates every panel's rectangle: panels inside the scroll
    /// window get a full-width slice of the screen at the packer's height,
    /// all others a zero rectangle.
    pub fn place(&mut self)
        requires
            old(self).w >= 12,
            old(self).h >= 1,
        ensures
            final(self).procs@.len() == old(self).procs@.len(),
            *final(self) == (Layout { procs: final(self).procs, ..*old(self) }),
            old(self).procs@.len() == 0 ==> final(self).procs == old(self).procs,
            ({
                let l = old(self).procs@.len() as nat;
                let dh = (old(self).h - 1) as nat;
                let mx = spec_visible_count(old(self).config, l, dh);
                let gh = spec_graph_height(old(self).config, l, dh);
                let sided = spec_packer(old(self).config, l, dh) == Pack::Side;
                forall|i: int|
                    0 <= i < l ==> if i < old(self).top_item || i >= old(self).top_item + mx {
                        panel_dimmed(
                            old(self).procs@[i],
                            #[trigger] final(self).procs@[i],
                            0,
                            0,
                            0,
                            0,
                            false,
                        )
                    } else {
                        panel_dimmed(
                            old(self).procs@[i],
                            final(self).procs@[i],
                            0,
                            ((i - old(self).top_item) * gh + 1) as u16,
                            old(self).w,
                            gh as u16,
                            sided,
                        )
                    }
            }),
    {
        let l = self.procs.len();
        if l == 0 {
            return;
        }
        let draw_height = self.h - 1;
        let mx = self.config.visible_count(l, draw_height);
        let gh = self.config.graph_height(l, draw_height);
        let pack = self.config.packer(l, draw_height);
        let sided = pack == Pack::Side;
        proof {
            crate::config::lemma_page_fits(
                self.config,
                l as nat,
                draw_height as nat,
            );
        }
        let ghost snap = *self;
        let mut idx: usize = 0;
        while idx < l
            invariant
                idx <= l,
                l == self.procs@.len(),
                self.w >= 12,
                *self == (Layout { procs: self.procs, ..snap }),
                snap.procs@.len() == l,
                snap.h >= 1,
                mx as nat == spec_visible_count(snap.config, l as nat, (snap.h - 1) as nat),
                gh as nat == spec_graph_height(snap.config, l as nat, (snap.h - 1) as nat),
                gh >= 8,
                sided == (spec_packer(snap.config, l as nat, (snap.h - 1) as nat) == Pack::Side),
                mx as nat * gh as nat <= (snap.h - 1) as nat,
                forall|i: int| idx <= i < l ==> self.procs@[i] == snap.procs@[i],
                forall|i: int|
                    0 <= i < idx ==> if i < snap.top_item || i >= snap.top_item + mx {
                        panel_dimmed(snap.procs@[i], #[trigger] self.procs@[i], 0, 0, 0, 0, false)
                    } else {
                        panel_dimmed(
                            snap.procs@[i],
                            self.procs@[i],
                            0,
                            ((i - snap.top_item) * gh as int + 1) as u16,
                            snap.w,
                            gh as u16,
                            sided,
                        )
                    },
            decreases l - idx,
        {
            if idx < self.top_item || idx - self.top_item >= mx {
                let p = &mut self.procs[idx];
                p.dim(0, 0, 0, 0, false);
            } else {
                let offset = idx - self.top_item;
                proof {
                    assert(offset < mx);
                    assert(mx as nat * gh as nat <= 65534);
                    assert(offset as int * gh as int + gh as int <= 65534) by (nonlinear_arith)
                        requires
                            offset as int + 1 <= mx as int,
                            gh >= 1,
                            mx as nat * gh as nat <= 65534,
                    ;
                    assert(offset as int <= 0xffff) by (nonlinear_arith)
                        requires
                            (offset as int * gh as int) <= 0xffff,
                            gh >= 8,
                            offset >= 0,
                    ;
                    assert((offset as u16) as int * gh as int == offset as int * gh as int);
                }
                let y: u16 = (offset as u16) * gh + 1;
                let p = &mut self.procs[idx];
                p.dim(0, y, self.w, gh, sided);
            }
            idx = idx + 1;
        }
    }

    /// Terminal resize: stores the new size and replaces every panel
    /// rectangle; an unchanged size does nothing.
    pub fn size_changed(&mut self, w: u16, h: u16)
        requires
            w >= 12,
            h >= 1,
        ensures
            old(self).w == w && old(self).h == h ==> *final(self) == *old(self),
            final(self).w == w,
            final(self).h == h,
            final(self).procs@.len() == old(self).procs@.len(),
            *final(self) == (Layout { w: w, h: h, procs: final(self).procs, ..*old(self) }),
    {
        if self.w == w && self.h == h {
            return;
        }
        self.w = w;
        self.h = h;
        self.place();
    }

    /// Counts all panels, the hidden ones, and the dead ones.
    pub fn proc_totals(&self) -> (r: (usize, usize, usize))
        ensures
            r.0 == self.procs@.len(),
            r.1 as nat == count_hidden(self.procs@),
            r.2 as nat == count_dead(self.procs@),
            r.1 <= r.0,
            r.2 <= r.0,
    {
        let total = self.procs.len();
        let mut hidden: usize = 0;
        let mut dead: usize = 0;
        let mut i: usize = 0;
        proof {
            assert(self.procs@.subrange(0, 0) =~= Seq::<Process>::empty());
        }
        while i < total
            invariant
                i <= total,
                total == self.procs@.len(),
                hidden as nat == count_hidden(self.procs@.subrange(0, i as int)),
                dead as nat == count_dead(self.procs@.subrange(0, i as int)),
                hidden <= i,
                dead <= i,
            decreases total - i,
        {
            let ghost pre = self.procs@.subrange(0, i as int);
            if self.procs[i].dead {
                dead = dead + 1;
            }
            if self.procs[i].w == 0 {
                hidden = hidden + 1;
            }
            proof {
                assert(self.procs@.subrange(0, i as int + 1).drop_last() =~= pre);
                assert(self.procs@.subrange(0, i as int + 1).last() == self.procs@[i as int]);
            }
            i = i + 1;
        }
        proof {
            assert(self.procs@.subrange(0, total as int) =~= self.procs@);
        }
        (total, hidden, dead)
    }

    /// Moves the scroll window and reports whether the view changed.
    pub fn scroll(&mut self, dir: Scroll) -> (r: bool)
        ensures
            ({
                let spec = spec_scroll(
                    old(self).top_item as nat,
                    old(self).procs@.len(),
                    count_hidden(old(self).procs@),
                    dir,
                );
                &&& final(self).top_item as nat == spec.0
                &&& r == spec.1
            }),
            *final(self) == (Layout { top_item: final(self).top_item, ..*old(self) }),
    {
        let totals = self.proc_totals();
        let t = totals.0;
        let h = totals.1;
        if h == 0 {
            return false;
        }
        let shown = t - h;
        match dir {
            Scroll::Home => {
                let res = self.top_item != 0;
                self.top_item = 0;
                res
            },
            Scroll::End => {
                let res = self.top_item < t - shown;
                self.top_item = t - shown;
                res
            },
            Scroll::Up(shift) => {
                if self.top_item == 0 {
                    return false;
                }
                if shift >= self.top_item {
                    self.top_item = 0;
                } else {
                    self.top_item = self.top_item - shift;
                }
                true
            },
            Scroll::Down(shift) => {
                if self.top_item > usize::MAX - shown || self.top_item + shown >= t {
                    proof {
                        assert(old(self).top_item > usize::MAX - shown ==> old(self).top_item
                            + shown >= t);
                    }
                    return false;
                }
                if shift > t - (self.top_item + shown) {
                    self.top_item = t - shown;
                    return true;
                }
                self.top_item = self.top_item + shift;
                true
            },
        }
    }

    /// Toggles mark mode for the whole dashboard: the timestamp and every
    /// panel's baselines are set together, or cleared together.
    pub fn toggle_mark(&mut self, now: u64)
        ensures
            final(self).mark_since == (if old(self).mark_since is None {
                Some(now)
            } else {
                None::<u64>
            }),
            final(self).procs@.len() == old(self).procs@.len(),
            forall|i: int|
                0 <= i < old(self).procs@.len() ==> panel_mark_toggled(
                    old(self).procs@[i],
                    #[trigger] final(self).procs@[i],
                ),
            *final(self) == (Layout {
                mark_since: final(self).mark_since,
                procs: final(self).procs,
                ..*old(self)
            }),
    {
        let is_off = self.mark_since.is_none();
        if is_off {
            self.mark_since = Some(now);
        } else {
            self.mark_since = None;
        }
        let ghost snap = *self;
        let l = self.procs.len();
        let mut i: usize = 0;
        while i < l
            invariant
                i <= l,
                l == self.procs@.len(),
                *self == (Layout { procs: self.procs, ..snap }),
                snap.procs@.len() == l,
                forall|j: int| i <= j < l ==> self.procs@[j] == snap.procs@[j],
                forall|j: int|
                    0 <= j < i ==> panel_mark_toggled(snap.procs@[j], #[trigger] self.procs@[j]),
            decreases l - i,
        {
            let p = &mut self.procs[i];
            p.toggle_mark();
            i = i + 1;
        }
    }

    /// Resets every panel's all-time maxima to their drawn windows.
    pub fn reset_max(&mut self)
        requires
            layout_wf(*old(self)),
        ensures
            final(self).procs@.len() == old(self).procs@.len(),
            forall|i: int|
                0 <= i < old(self).procs@.len() ==> panel_maxes_reset(
                    old(self).procs@[i],
                    #[trigger] final(self).procs@[i],
                ),
            *final(self) == (Layout { procs: final(self).procs, ..*old(self) }),
    {
        let ghost snap = *self;
        let l = self.procs.len();
        let mut i: usize = 0;
        while i < l
            invariant
                i <= l,
                l == self.procs@.len(),
                *self == (Layout { procs: self.procs, ..snap }),
                snap.procs@.len() == l,
                layout_wf(snap),
                forall|j: int| i <= j < l ==> self.procs@[j] == snap.procs@[j],
                forall|j: int|
                    0 <= j < i ==> panel_maxes_reset(snap.procs@[j], #[trigger] self.procs@[j]),
            decreases l - i,
        {
            proof {
                assert(panel_wf(snap.procs@[i as int]));
                assert(SAMPLE_MAX < crate::ux::ROUND_HUNDRED_MAX);
            }
            let p = &mut self.procs[i];
            p.reset_max();
            i = i + 1;
        }
    }

    /// Stores the machine-wide totals computed from a snapshot: the CPU
    /// percentage as given, memory as the used share of the total in
    /// percent.
    pub fn set_totals(&mut self, cpu_percent: u64, used_mem: u64, total_mem: u64)
        requires
            total_mem > 0,
            used_mem <= u64::MAX / 100,
        ensures
            final(self).cpu_usage == cpu_percent,
            final(self).mem_usage == (used_mem as int * 100) / total_mem as int,
            *final(self) == (Layout {
                cpu_usage: cpu_percent,
                mem_usage: final(self).mem_usage,
                ..*old(self)
            }),
    {
        self.cpu_usage = cpu_percent;
        self.mem_usage = used_mem * 100 / total_mem;
    }

    /// The height a panel currently gets.
    pub fn counter_height(&self) -> (r: u16)
        requires
            self.h >= 1,
        ensures
            r as nat == spec_graph_height(self.config, self.procs@.len(), (self.h - 1) as nat),
    {
        self.config.graph_height(self.procs.len(), self.h - 1)
    }

    /// Switches the top line between help and totals.
    pub fn switch_help(&mut self)
        ensures
            final(self).show_help == !old(self).show_help,
            *final(self) == (Layout { show_help: final(self).show_help, ..*old(self) }),
    {
        self.show_help = !self.show_help;
    }

    /// Drops every dead panel; reports whether any panel was dropped.
    pub fn remove_dead(&mut self) -> (r: bool)
        ensures
            r == (count_dead(old(self).procs@) > 0),
            final(self).procs@ == old(self).procs@.filter(|p: Process| !p.dead),
            *final(self) == (Layout { procs: final(self).procs, ..*old(self) }),
    {
        proof {
            reveal(Seq::filter);
        }
        let totals = self.proc_totals();
        if totals.2 == 0 {
            proof {
                lemma_filter_none_dead(self.procs@);
            }
            return false;
        }
        let ghost snap = *self;
        let ghost orig = self.procs@;
        let total: usize = self.procs.len();
        let mut j: usize = 0;
        let mut i: usize = 0;
        proof {
            assert(orig.subrange(0, 0) =~= Seq::<Process>::empty());
            assert(orig.skip(0) =~= orig);
            assert(self.procs@ =~= orig.subrange(0, 0).filter(|p: Process| !p.dead) + orig.skip(
                0,
            ));
        }
        while j < total
            invariant
                total == orig.len(),
                j <= orig.len(),
                i <= j,
                self.procs@.len() == i + (orig.len() - j),
                *self == (Layout { procs: self.procs, ..snap }),
                self.procs@ == orig.subrange(0, j as int).filter(|p: Process| !p.dead) + orig.skip(
                    j as int,
                ),
                i as nat == orig.subrange(0, j as int).filter(|p: Process| !p.dead).len(),
            decreases orig.len() - j,
        {
            let ghost prefix = orig.subrange(0, j as int);
            proof {
                reveal(Seq::filter);
                assert(orig.subrange(0, j as int + 1).drop_last() =~= prefix);
                assert(orig.subrange(0, j as int + 1).last() == orig[j as int]);
                assert(self.procs@[i as int] == orig[j as int]);
            }
            if self.procs[i].dead {
                let _dropped = self.procs.remove(i);
                proof {
                    let pred = |p: Process| !p.dead;
                    let flt = prefix.filter(pred);
                    assert(orig.subrange(0, j as int + 1).filter(pred) =~= flt);
                    assert((flt + orig.skip(j as int)).remove(i as int) =~= flt + orig.skip(
                        j as int + 1,
                    ));
                }
            } else {
                proof {
                    let pred = |p: Process| !p.dead;
                    let flt = prefix.filter(pred);
                    assert(orig.subrange(0, j as int + 1).filter(pred) =~= flt.push(
                        orig[j as int],
                    ));
                    assert(flt.push(orig[j as int]) + orig.skip(j as int + 1) =~= flt + orig.skip(
                        j as int,
                    ));
                }
                i = i + 1;
            }
            j = j + 1;
        }
        proof {
            reveal(Seq::filter);
            assert(orig.subrange(0, orig.len() as int) =~= orig);
            assert(orig.skip(orig.len() as int) =~= Seq::<Process>::empty());
            assert(self.procs@ =~= orig.filter(|p: Process| !p.dead));
            lemma_dead_count_filter(orig);
        }
        true
    }
}

/// Whether some sample of the snapshot carries this process id.
pub open spec fn samples_have_pid(samples: Seq<ProcSample>, pid: u64) -> bool {
    exists|k: int| 0 <= k < samples.len() && samples[k].pid == pid
}

/// Whether some panel is live under this process id.
pub open spec fn has_live_pid(s: Seq<Process>, pid: u64) -> bool {
    exists|i: int| 0 <= i < s.len() && !s[i].dead && s[i].pid == pid
}

/// What the death-marking pass does to one panel: a live panel whose id is
/// absent from the snapshot dies and is stamped, every other panel is left
/// alone.
pub open spec fn spec_mark(p: Process, samples: Seq<ProcSample>, now: u64) -> Process {
    if !p.dead && !samples_have_pid(samples, p.pid) {
        Process { dead: true, dead_since: Some(now), ..p }
    } else {
        p
    }
}

/// A panel freshly created from one sample: live, counters primed with the
/// first measurements (the first CPU reading is recorded as zero), and the
/// I/O totals taken over.
pub open spec fn is_fresh_panel(q: Process, s: ProcSample) -> bool {
    &&& q.pid == s.pid
    &&& !q.dead
    &&& q.dead_since is None
    &&& q.cmd@ == s.cmd@
    &&& q.exe@ == s.exe@
    &&& q.title@ == s.title@
    &&& q.cpu.values@ == seq![0u64]
    &&& q.mem.values@ == seq![s.mem]
    &&& q.cpu.scale_to == 100
    &&& q.mem.auto_scale
    &&& q.io_r_total == s.io_r_total
    &&& q.io_w_total == s.io_w_total
    &&& q.io_r_delta == 0
    &&& q.io_w_delta == 0
}

/// An existing live panel refreshed by one sample: both counters rolled
/// forward and the I/O totals and deltas replaced.
pub open spec fn is_refreshed(pre: Process, q: Process, s: ProcSample) -> bool {
    &&& counter_added(
        pre.cpu,
        q.cpu,
        if pre.cpu.values@.len() == 0 {
            0
        } else {
            s.cpu
        },
    )
    &&& counter_added(pre.mem, q.mem, s.mem)
    &&& q.io_w_total == s.io_w_total
    &&& q.io_r_total == s.io_r_total
    &&& q.io_w_delta == s.io_w_delta
    &&& q.io_r_delta == s.io_r_delta
    &&& q == (Process {
        cpu: q.cpu,
        mem: q.mem,
        io_w_total: q.io_w_total,
        io_r_total: q.io_r_total,
        io_w_delta: q.io_w_delta,
        io_r_delta: q.io_r_delta,
        ..pre
    })
}

/// One sample's mark on the merged list: it refreshed the live panel that
/// carried its id, or created a fresh panel when none did.
pub open spec fn sample_merged(marked: Seq<Process>, fin: Seq<Process>, s: ProcSample) -> bool {
    if has_live_pid(marked, s.pid) {
        exists|i: int|
            0 <= i < marked.len() && !marked[i].dead && marked[i].pid == s.pid && (exists|j: int|
                0 <= j < fin.len() && is_refreshed(#[trigger] marked[i], #[trigger] fin[j], s))
    } else {
        exists|j: int| 0 <= j < fin.len() && is_fresh_panel(#[trigger] fin[j], s)
    }
}

/// A marked panel that no sample can refresh: it is dead, or no sample
/// carries its id.
pub open spec fn untouched_by(p: Process, samples: Seq<ProcSample>) -> bool {
    p.dead || !samples_have_pid(samples, p.pid)
}

/// How many samples create fresh panels: those without a live match.
pub open spec fn count_new(marked: Seq<Process>, samples: Seq<ProcSample>) -> nat
    decreases samples.len(),
{
    if samples.len() == 0 {
        0
    } else {
        count_new(marked, samples.drop_last()) + if has_live_pid(marked, samples.last().pid) {
            0nat
        } else {
            1nat
        }
    }
}

fn samples_contain_pid(samples: &Vec<ProcSample>, pid: u64) -> (r: bool)
    ensures
        r == samples_have_pid(samples@, pid),
{
    let mut k: usize = 0;
    while k < samples.len()
        invariant
            k <= samples@.len(),
            forall|k2: int| 0 <= k2 < k ==> samples@[k2].pid != pid,
        decreases samples@.len() - k,
    {
        if samples[k].pid == pid {
            return true;
        }
        k = k + 1;
    }
    false
}

fn find_live(procs: &Vec<Process>, pid: u64) -> (r: Option<usize>)
    ensures
        match r {
            Some(i) => i < procs@.len() && !procs@[i as int].dead && procs@[i as int].pid == pid,
            None => !has_live_pid(procs@, pid),
        },
{
    let mut i: usize = 0;
    while i < procs.len()
        invariant
            i <= procs@.len(),
            forall|i2: int| 0 <= i2 < i ==> procs@[i2].dead || procs@[i2].pid != pid,
        decreases procs@.len() - i,
    {
        if !procs[i].dead && procs[i].pid == pid {
            return Some(i);
        }
        i = i + 1;
    }
    None
}

/// Well-formedness of all panels transfers across any permutation.
proof fn lemma_wf_permutes(s1: Seq<Process>, s2: Seq<Process>)
    requires
        s1.to_multiset() == s2.to_multiset(),
        forall|i: int| 0 <= i < s1.len() ==> panel_wf(#[trigger] s1[i]),
    ensures
        forall|i: int| 0 <= i < s2.len() ==> panel_wf(#[trigger] s2[i]),
{
    assert forall|i: int| 0 <= i < s2.len() implies panel_wf(#[trigger] s2[i]) by {
        let x = s2[i];
        assert(s2.contains(x));
        to_multiset_contains(s2, x);
        to_multiset_contains(s1, x);
        assert(s1.contains(x));
        let j = choose|j: int| 0 <= j < s1.len() && s1[j] == x;
        assert(panel_wf(s1[j]));
    }
}

/// A sample's merged mark transfers across any permutation of the list.
proof fn lemma_sample_merged_permutes(
    marked: Seq<Process>,
    s1: Seq<Process>,
    s2: Seq<Process>,
    s: ProcSample,
)
    requires
        s1.to_multiset() == s2.to_multiset(),
        sample_merged(marked, s1, s),
    ensures
        sample_merged(marked, s2, s),
{
    if has_live_pid(marked, s.pid) {
        let i = choose|i: int|
            0 <= i < marked.len() && !marked[i].dead && marked[i].pid == s.pid && (exists|j: int|
                0 <= j < s1.len() && is_refreshed(#[trigger] marked[i], #[trigger] s1[j], s));
        let j = choose|j: int| 0 <= j < s1.len() && is_refreshed(marked[i], #[trigger] s1[j], s);
        assert(s1.contains(s1[j]));
        to_multiset_contains(s1, s1[j]);
        to_multiset_contains(s2, s1[j]);
        assert(s2.contains(s1[j]));
        let j2 = choose|j2: int| 0 <= j2 < s2.len() && s2[j2] == s1[j];
        assert(is_refreshed(marked[i], s2[j2], s));
    } else {
        let j = choose|j: int| 0 <= j < s1.len() && is_fresh_panel(#[trigger] s1[j], s);
        assert(s1.contains(s1[j]));
        to_multiset_contains(s1, s1[j]);
        to_multiset_contains(s2, s1[j]);
        assert(s2.contains(s1[j]));
        let j2 = choose|j2: int| 0 <= j2 < s2.len() && s2[j2] == s1[j];
        assert(is_fresh_panel(s2[j2], s));
    }
}

/// Membership transfers across any permutation.
proof fn lemma_contains_permutes(s1: Seq<Process>, s2: Seq<Process>, x: Process)
    requires
        s1.to_multiset() == s2.to_multiset(),
        s1.contains(x),
    ensures
        s2.contains(x),
{
    to_multiset_contains(s1, x);
    to_multiset_contains(s2, x);
}

impl Layout {
    /// Merges one snapshot into the tracked panels: live panels whose id
    /// vanished are marked dead and stamped once; each sample refreshes the
    /// live panel carrying its id or creates a fresh one; the panels end up
    /// in display order.
    pub fn update_procs(&mut self, samples: &Vec<ProcSample>, now: u64)
        requires
            layout_wf(*old(self)),
            forall|k1: int, k2: int|
                0 <= k1 < k2 < samples@.len() ==> samples@[k1].pid != samples@[k2].pid,
            forall|k: int|
                0 <= k < samples@.len() ==> (#[trigger] samples@[k]).cpu <= SAMPLE_MAX
                    && samples@[k].mem <= SAMPLE_MAX,
        ensures
            layout_wf(*final(self)),
            panels_sorted(final(self).procs@),
            *final(self) == (Layout { procs: final(self).procs, ..*old(self) }),
            ({
                let marked = Seq::new(
                    old(self).procs@.len(),
                    |i: int| spec_mark(old(self).procs@[i], samples@, now),
                );
                &&& final(self).procs@.len() == marked.len() + count_new(marked, samples@)
                &&& forall|k: int|
                    0 <= k < samples@.len() ==> sample_merged(
                        marked,
                        final(self).procs@,
                        #[trigger] samples@[k],
                    )
                &&& forall|i: int|
                    0 <= i < marked.len() && untouched_by(#[trigger] marked[i], samples@)
                        ==> final(self).procs@.contains(marked[i])
            }),
    {
        let ghost orig = self.procs@;
        let ghost snap = *self;
        let ghost marked = Seq::new(
            orig.len(),
            |i: int| spec_mark(orig[i], samples@, now),
        );
        let l = self.procs.len();
        let mut i: usize = 0;
        while i < l
            invariant
                i <= l,
                l == self.procs@.len(),
                orig.len() == l,
                *self == (Layout { procs: self.procs, ..snap }),
                snap.procs@ == orig,
                marked == Seq::new(orig.len(), |i2: int| spec_mark(orig[i2], samples@, now)),
                forall|j: int| 0 <= j < i ==> self.procs@[j] == marked[j],
                forall|j: int| i <= j < l ==> self.procs@[j] == orig[j],
            decreases l - i,
        {
            let dead_now = !self.procs[i].dead && !samples_contain_pid(samples, self.procs[i].pid);
            if dead_now {
                let ghost before = self.procs@;
                let mut p = self.procs.remove(i);
                p.dead = true;
                p.dead_since = Some(now);
                self.procs.insert(i, p);
                proof {
                    assert(self.procs@ =~= before.update(i as int, p));
                }
            }
            i = i + 1;
        }
        proof {
            assert(self.procs@ =~= marked);
            // Marking preserves uniqueness and well-formedness: liveness
            // only goes away and every other field stays.
            assert forall|a: int, b: int|
                0 <= a < b < marked.len() && !marked[a].dead && !marked[b].dead implies marked[a].pid
                != marked[b].pid by {
                assert(!orig[a].dead && !orig[b].dead);
                assert(marked[a].pid == orig[a].pid && marked[b].pid == orig[b].pid);
            }
            assert forall|a: int| 0 <= a < marked.len() implies panel_wf(#[trigger] marked[a]) by {
                assert(panel_wf(orig[a]));
                assert(marked[a].cpu == orig[a].cpu && marked[a].mem == orig[a].mem);
            }
        }
        proof {
            assert(samples@.subrange(0, 0) =~= Seq::<ProcSample>::empty());
            assert(count_new(marked, samples@.subrange(0, 0)) == 0);
            assert forall|i2: int| 0 <= i2 < marked.len() implies self.procs@.contains(
                #[trigger] marked[i2],
            ) by {
                assert(self.procs@[i2] == marked[i2]);
            }
        }
        let scount = samples.len();
        let mut k: usize = 0;
        while k < scount
            invariant
                k <= scount,
                scount == samples@.len(),
                *self == (Layout { procs: self.procs, ..snap }),
                marked.len() == orig.len(),
                live_pids_unique(marked),
                live_pids_unique(self.procs@),
                forall|a: int| 0 <= a < self.procs@.len() ==> panel_wf(#[trigger] self.procs@[a]),
                forall|k1: int, k2: int|
                    0 <= k1 < k2 < samples@.len() ==> samples@[k1].pid != samples@[k2].pid,
                forall|k2: int|
                    0 <= k2 < samples@.len() ==> (#[trigger] samples@[k2]).cpu <= SAMPLE_MAX
                        && samples@[k2].mem <= SAMPLE_MAX,
                self.procs@.len() == marked.len() + count_new(
                    marked,
                    samples@.subrange(0, k as int),
                ),
                forall|k2: int|
                    0 <= k2 < k ==> sample_merged(marked, self.procs@, #[trigger] samples@[k2]),
                forall|i2: int|
                    0 <= i2 < marked.len() && untouched_by(
                        #[trigger] marked[i2],
                        samples@.subrange(0, k as int),
                    ) ==> self.procs@.contains(marked[i2]),
                // Panels refreshed or created so far carry sample pids; the
                // live pids overall stay within marked's live pids plus the
                // processed samples' pids.
                forall|j: int|
                    0 <= j < self.procs@.len() && !(#[trigger] self.procs@[j]).dead ==> (
                    has_live_pid(marked, self.procs@[j].pid) || exists|k2: int|
                        0 <= k2 < k && samples@[k2].pid == self.procs@[j].pid),
            decreases scount - k,
        {
            let ghost cur = self.procs@;
            let ghost s_spec = samples@[k as int];
            let found = find_live(&self.procs, samples[k].pid);
            proof {
                assert(SAMPLE_MAX < crate::ux::ROUND_HUNDRED_MAX);
                assert(samples@.subrange(0, k as int + 1).drop_last() =~= samples@.subrange(
                    0,
                    k as int,
                ));
                assert(samples@.subrange(0, k as int + 1).last() == samples@[k as int]);
            }
            match found {
                Some(i2) => {
                    proof {
                        // The matched live panel exists in marked too.
                        assert(has_live_pid(cur, s_spec.pid));
                    }
                    let sref = &samples[k];
                    let cpu_v = sref.cpu;
                    let mem_v = sref.mem;
                    let iowt = sref.io_w_total;
                    let iort = sref.io_r_total;
                    let iowd = sref.io_w_delta;
                    let iord = sref.io_r_delta;
                    let p = &mut self.procs[i2];
                    p.add(cpu_v, mem_v);
                    p.io_w_total = iowt;
                    p.io_r_total = iort;
                    p.io_w_delta = iowd;
                    p.io_r_delta = iord;
                    proof {
                        let q = self.procs@[i2 as int];
                        assert(self.procs@ =~= cur.update(i2 as int, q));
                        assert(is_refreshed(cur[i2 as int], q, s_spec));
                        lemma_merge_update_step(
                            marked,
                            cur,
                            self.procs@,
                            samples@,
                            k as int,
                            i2 as int,
                        );
                    }
                },
                None => {
                    let sref = &samples[k];
                    let mut ap = Process::new(
                        sref.pid,
                        sref.cmd.clone(),
                        sref.exe.clone(),
                        sref.title.clone(),
                    );
                    ap.add(sref.cpu, sref.mem);
                    ap.io_w_total = sref.io_w_total;
                    ap.io_r_total = sref.io_r_total;
                    self.procs.push(ap);
                    proof {
                        let q = self.procs@.last();
                        assert(q.cpu.values@ =~= seq![0u64]);
                        assert(q.mem.values@ =~= seq![s_spec.mem]);
                        assert(self.procs@ == cur.push(q));
                        assert(is_fresh_panel(q, s_spec));
                        lemma_merge_push_step(marked, cur, self.procs@, samples@, k as int);
                    }
                },
            }
            k = k + 1;
        }
        proof {
            assert(samples@.subrange(0, scount as int) =~= samples@);
        }
        let ghost before_sort = self.procs@;
        sort_panels(&mut self.procs);
        proof {
            lemma_wf_permutes(before_sort, self.procs@);
            assert forall|k2: int| 0 <= k2 < samples@.len() implies sample_merged(
                marked,
                self.procs@,
                #[trigger] samples@[k2],
            ) by {
                lemma_sample_merged_permutes(marked, before_sort, self.procs@, samples@[k2]);
            }
            assert forall|i2: int|
                0 <= i2 < marked.len() && untouched_by(#[trigger] marked[i2], samples@) implies self
                .procs@.contains(marked[i2]) by {
                lemma_contains_permutes(before_sort, self.procs@, marked[i2]);
            }
        }
    }
}

/// After refreshing the matched live panel in place, every invariant of the
/// merge loop moves one sample forward.
proof fn lemma_merge_update_step(
    marked: Seq<Process>,
    cur: Seq<Process>,
    next: Seq<Process>,
    samples: Seq<ProcSample>,
    k: int,
    i2: int,
)
    requires
        0 <= k < samples.len(),
        0 <= i2 < cur.len(),
        next == cur.update(i2, next[i2]),
        next.len() == cur.len(),
        !cur[i2].dead,
        cur[i2].pid == samples[k].pid,
        is_refreshed(cur[i2], next[i2], samples[k]),
        live_pids_unique(cur),
        forall|k1: int, k2: int| 0 <= k1 < k2 < samples.len() ==> samples[k1].pid != samples[k2].pid,
        forall|j: int|
            0 <= j < cur.len() && !(#[trigger] cur[j]).dead ==> (has_live_pid(marked, cur[j].pid)
                || exists|k2: int| 0 <= k2 < k && samples[k2].pid == cur[j].pid),
        forall|k2: int| 0 <= k2 < k ==> sample_merged(marked, cur, #[trigger] samples[k2]),
        live_pids_unique(marked),
        forall|i3: int|
            0 <= i3 < marked.len() && untouched_by(#[trigger] marked[i3], samples.subrange(0, k))
                ==> cur.contains(marked[i3]),
    ensures
        live_pids_unique(next),
        has_live_pid(marked, samples[k].pid),
        forall|k2: int| 0 <= k2 < k + 1 ==> sample_merged(marked, next, #[trigger] samples[k2]),
        forall|i3: int|
            0 <= i3 < marked.len() && untouched_by(
                #[trigger] marked[i3],
                samples.subrange(0, k + 1),
            ) ==> next.contains(marked[i3]),
        forall|j: int|
            0 <= j < next.len() && !(#[trigger] next[j]).dead ==> (has_live_pid(marked, next[j].pid)
                || exists|k2: int| 0 <= k2 < k + 1 && samples[k2].pid == next[j].pid),
{
    let q = next[i2];
    assert(q.pid == cur[i2].pid && q.dead == cur[i2].dead);
    // uniqueness: pids and liveness are unchanged position by position
    assert forall|a: int, b: int|
        0 <= a < b < next.len() && !next[a].dead && !next[b].dead implies next[a].pid
        != next[b].pid by {
        assert(next[a].pid == cur[a].pid && next[b].pid == cur[b].pid);
        assert(next[a].dead == cur[a].dead && next[b].dead == cur[b].dead);
    }
    // the panel at i2 is live in cur; it must be live in marked too, since
    // phase B only ever makes panels from samples or keeps marked ones
    assert(has_live_pid(marked, samples[k].pid)) by {
        if !has_live_pid(marked, cur[i2 as int].pid) {
            let k2 = choose|k2: int| 0 <= k2 < k && samples[k2].pid == cur[i2].pid;
            assert(samples[k2].pid == samples[k].pid);
            assert(false);
        }
    }
    // earlier samples stay merged: their witnesses cannot be position i2
    assert forall|k2: int| 0 <= k2 < k + 1 implies sample_merged(
        marked,
        next,
        #[trigger] samples[k2],
    ) by {
        if k2 < k {
            assert(sample_merged(marked, cur, samples[k2]));
            if has_live_pid(marked, samples[k2].pid) {
                let i3 = choose|i3: int|
                    0 <= i3 < marked.len() && !marked[i3].dead && marked[i3].pid == samples[k2].pid
                        && (exists|j: int|
                        0 <= j < cur.len() && is_refreshed(marked[i3], #[trigger] cur[j], samples[k2]));
                let j = choose|j: int|
                    0 <= j < cur.len() && is_refreshed(marked[i3], #[trigger] cur[j], samples[k2]);
                assert(cur[j].pid == samples[k2].pid);
                assert(j != i2);
                assert(next[j] == cur[j]);
                assert(is_refreshed(marked[i3], next[j], samples[k2]));
            } else {
                let j = choose|j: int|
                    0 <= j < cur.len() && is_fresh_panel(#[trigger] cur[j], samples[k2]);
                assert(cur[j].pid == samples[k2].pid);
                assert(j != i2);
                assert(next[j] == cur[j]);
                assert(is_fresh_panel(next[j], samples[k2]));
            }
        } else {
            // the current sample: i2 itself matches in marked
            let i3 = choose|i3: int|
                0 <= i3 < marked.len() && !marked[i3].dead && marked[i3].pid == samples[k].pid;
            assert(is_refreshed(cur[i2], next[i2], samples[k]));
            // we need the marked panel that is refreshed: cur[i2] must equal marked[i3]?
            lemma_live_panel_is_marked(marked, cur, samples, k, i2);
            let i4 = choose|i4: int|
                0 <= i4 < marked.len() && !marked[i4].dead && marked[i4].pid == cur[i2].pid
                    && marked[i4] == cur[i2];
            assert(is_refreshed(marked[i4], next[i2], samples[k]));
        }
    }
    // untouched marked panels survive: their witness is not position i2
    assert forall|i3: int|
        0 <= i3 < marked.len() && untouched_by(
            #[trigger] marked[i3],
            samples.subrange(0, k + 1),
        ) implies next.contains(marked[i3]) by {
        lemma_untouched_prefix(marked[i3], samples, k);
        assert(cur.contains(marked[i3]));
        let j = choose|j: int| 0 <= j < cur.len() && cur[j] == marked[i3];
        if j == i2 {
            assert(!cur[i2].dead && cur[i2].pid == samples[k].pid);
            assert(samples.subrange(0, k + 1)[k] == samples[k]);
            assert(samples_have_pid(samples.subrange(0, k + 1), marked[i3].pid));
            assert(false);
        }
        assert(next[j] == marked[i3]);
        assert(next.contains(marked[i3]));
    }
}

/// A panel untouched by the first `k + 1` samples is untouched by the
/// first `k`.
proof fn lemma_untouched_prefix(p: Process, samples: Seq<ProcSample>, k: int)
    requires
        0 <= k < samples.len(),
        untouched_by(p, samples.subrange(0, k + 1)),
    ensures
        untouched_by(p, samples.subrange(0, k)),
{
    if !p.dead && samples_have_pid(samples.subrange(0, k), p.pid) {
        let j = choose|j: int|
            0 <= j < samples.subrange(0, k).len() && samples.subrange(0, k)[j].pid == p.pid;
        assert(samples.subrange(0, k + 1)[j].pid == p.pid);
        assert(samples_have_pid(samples.subrange(0, k + 1), p.pid));
    }
}

/// A live panel present during phase B that has no processed-sample pid is
/// one of the marked panels, unchanged.
proof fn lemma_live_panel_is_marked(
    marked: Seq<Process>,
    cur: Seq<Process>,
    samples: Seq<ProcSample>,
    k: int,
    i2: int,
)
    requires
        0 <= k < samples.len(),
        0 <= i2 < cur.len(),
        !cur[i2].dead,
        cur[i2].pid == samples[k].pid,
        forall|k1: int, k2: int| 0 <= k1 < k2 < samples.len() ==> samples[k1].pid != samples[k2].pid,
        forall|i3: int|
            0 <= i3 < marked.len() && untouched_by(#[trigger] marked[i3], samples.subrange(0, k))
                ==> cur.contains(marked[i3]),
        has_live_pid(marked, samples[k].pid),
        live_pids_unique(cur),
        live_pids_unique(marked),
    ensures
        exists|i4: int|
            0 <= i4 < marked.len() && !marked[i4].dead && marked[i4].pid == cur[i2].pid && marked[i4]
                == cur[i2],
{
    let i4 = choose|i4: int|
        0 <= i4 < marked.len() && !marked[i4].dead && marked[i4].pid == samples[k].pid;
    // No earlier sample carries this pid, so the marked panel is still
    // present unchanged when sample k arrives.
    assert(untouched_by(marked[i4], samples.subrange(0, k))) by {
        if samples_have_pid(samples.subrange(0, k), marked[i4].pid) {
            let j = choose|j: int|
                0 <= j < samples.subrange(0, k).len() && samples.subrange(0, k)[j].pid
                    == marked[i4].pid;
            assert(samples[j].pid == samples[k].pid);
            assert(false);
        }
    }
    assert(cur.contains(marked[i4]));
    let j2 = choose|j2: int| 0 <= j2 < cur.len() && cur[j2] == marked[i4];
    if j2 != i2 {
        assert(!cur[j2].dead && cur[j2].pid == cur[i2].pid);
        assert(false);
    }
    assert(marked[i4] == cur[i2]);
}

/// After pushing a fresh panel, every invariant of the merge loop moves one
/// sample forward.
proof fn lemma_merge_push_step(
    marked: Seq<Process>,
    cur: Seq<Process>,
    next: Seq<Process>,
    samples: Seq<ProcSample>,
    k: int,
)
    requires
        0 <= k < samples.len(),
        next == cur.push(next.last()),
        next.len() == cur.len() + 1,
        !has_live_pid(cur, samples[k].pid),
        is_fresh_panel(next.last(), samples[k]),
        live_pids_unique(cur),
        forall|k1: int, k2: int| 0 <= k1 < k2 < samples.len() ==> samples[k1].pid != samples[k2].pid,
        forall|j: int|
            0 <= j < cur.len() && !(#[trigger] cur[j]).dead ==> (has_live_pid(marked, cur[j].pid)
                || exists|k2: int| 0 <= k2 < k && samples[k2].pid == cur[j].pid),
        forall|k2: int| 0 <= k2 < k ==> sample_merged(marked, cur, #[trigger] samples[k2]),
        forall|i3: int|
            0 <= i3 < marked.len() && untouched_by(#[trigger] marked[i3], samples.subrange(0, k))
                ==> cur.contains(marked[i3]),
    ensures
        live_pids_unique(next),
        !has_live_pid(marked, samples[k].pid),
        forall|k2: int| 0 <= k2 < k + 1 ==> sample_merged(marked, next, #[trigger] samples[k2]),
        forall|i3: int|
            0 <= i3 < marked.len() && untouched_by(
                #[trigger] marked[i3],
                samples.subrange(0, k + 1),
            ) ==> next.contains(marked[i3]),
        forall|j: int|
            0 <= j < next.len() && !(#[trigger] next[j]).dead ==> (has_live_pid(marked, next[j].pid)
                || exists|k2: int| 0 <= k2 < k + 1 && samples[k2].pid == next[j].pid),
{
    let q = next.last();
    // The new panel's pid is live nowhere else, so uniqueness holds.
    assert forall|a: int, b: int|
        0 <= a < b < next.len() && !next[a].dead && !next[b].dead implies next[a].pid
        != next[b].pid by {
        if b == next.len() - 1 {
            assert(next[a] == cur[a]);
            if next[a].pid == q.pid {
                assert(has_live_pid(cur, samples[k].pid));
            }
        } else {
            assert(next[a] == cur[a] && next[b] == cur[b]);
        }
    }
    // marked has no live panel under this pid either: phase B never removes
    // a live marked panel, so it would still be in cur.
    assert(!has_live_pid(marked, samples[k].pid)) by {
        if has_live_pid(marked, samples[k].pid) {
            lemma_live_marked_stays(marked, cur, samples, k);
        }
    }
    assert forall|k2: int| 0 <= k2 < k + 1 implies sample_merged(
        marked,
        next,
        #[trigger] samples[k2],
    ) by {
        if k2 < k {
            assert(sample_merged(marked, cur, samples[k2]));
            if has_live_pid(marked, samples[k2].pid) {
                let i3 = choose|i3: int|
                    0 <= i3 < marked.len() && !marked[i3].dead && marked[i3].pid == samples[k2].pid
                        && (exists|j: int|
                        0 <= j < cur.len() && is_refreshed(marked[i3], #[trigger] cur[j], samples[k2]));
                let j = choose|j: int|
                    0 <= j < cur.len() && is_refreshed(marked[i3], #[trigger] cur[j], samples[k2]);
                assert(next[j] == cur[j]);
                assert(is_refreshed(marked[i3], next[j], samples[k2]));
            } else {
                let j = choose|j: int|
                    0 <= j < cur.len() && is_fresh_panel(#[trigger] cur[j], samples[k2]);
                assert(next[j] == cur[j]);
                assert(is_fresh_panel(next[j], samples[k2]));
            }
        } else {
            assert(is_fresh_panel(next[next.len() - 1], samples[k]));
        }
    }
    assert forall|i3: int|
        0 <= i3 < marked.len() && untouched_by(
            #[trigger] marked[i3],
            samples.subrange(0, k + 1),
        ) implies next.contains(marked[i3]) by {
        lemma_untouched_prefix(marked[i3], samples, k);
        assert(cur.contains(marked[i3]));
        let j = choose|j: int| 0 <= j < cur.len() && cur[j] == marked[i3];
        assert(next[j] == marked[i3]);
        assert(next.contains(marked[i3]));
    }
}

/// A marked panel that stays live under a pid no processed sample carries
/// is still present during phase B.
proof fn lemma_live_marked_stays(
    marked: Seq<Process>,
    cur: Seq<Process>,
    samples: Seq<ProcSample>,
    k: int,
)
    requires
        0 <= k < samples.len(),
        has_live_pid(marked, samples[k].pid),
        forall|k1: int, k2: int| 0 <= k1 < k2 < samples.len() ==> samples[k1].pid != samples[k2].pid,
        forall|i3: int|
            0 <= i3 < marked.len() && untouched_by(#[trigger] marked[i3], samples.subrange(0, k))
                ==> cur.contains(marked[i3]),
    ensures
        has_live_pid(cur, samples[k].pid),
{
    let i4 = choose|i4: int|
        0 <= i4 < marked.len() && !marked[i4].dead && marked[i4].pid == samples[k].pid;
    assert(untouched_by(marked[i4], samples.subrange(0, k))) by {
        if samples_have_pid(samples.subrange(0, k), marked[i4].pid) {
            let j = choose|j: int|
                0 <= j < samples.subrange(0, k).len() && samples.subrange(0, k)[j].pid
                    == marked[i4].pid;
            assert(samples[j].pid == samples[k].pid);
            assert(false);
        }
    }
    assert(cur.contains(marked[i4]));
    let j = choose|j: int| 0 <= j < cur.len() && cur[j] == marked[i4];
    assert(!cur[j].dead && cur[j].pid == samples[k].pid);
    assert(has_live_pid(cur, samples[k].pid));
}

/// A list with no dead panel filters to itself.
proof fn lemma_filter_none_dead(s: Seq<Process>)
    requires
        count_dead(s) == 0,
    ensures
        s.filter(|p: Process| !p.dead) == s,
    decreases s.len(),
{
    reveal(Seq::filter);
    if s.len() > 0 {
        lemma_filter_none_dead(s.drop_last());
        assert(s.filter(|p: Process| !p.dead) =~= s.drop_last().filter(|p: Process| !p.dead).push(
            s.last(),
        ));
        assert(s.drop_last().push(s.last()) =~= s);
    } else {
        assert(s.filter(|p: Process| !p.dead) =~= s);
    }
}

/// A positive dead count names at least one dead panel.
proof fn lemma_dead_count_filter(s: Seq<Process>)
    requires
        count_dead(s) > 0,
    ensures
        exists|i: int| 0 <= i < s.len() && s[i].dead,
    decreases s.len(),
{
    if s.last().dead {
        assert(s[s.len() - 1].dead);
    } else {
        lemma_dead_count_filter(s.drop_last());
        let i = choose|i: int| 0 <= i < s.drop_last().len() && s.drop_last()[i].dead;
        assert(s[i].dead);
    }
}

} // verus!
