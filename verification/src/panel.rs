//! One tracked process's panel: its CPU and memory counters, identity and
//! lifecycle, screen rectangle, I/O totals, and the display order that puts
//! live panels before dead ones.

use vstd::prelude::*;
use vstd::seq_lib::group_to_multiset_ensures;
use vstd::seq_lib::lemma_multiset_commutative;
use vstd::seq_lib::to_multiset_insert;
use vstd::seq_lib::to_multiset_remove;

use crate::config::TitleMode;
use crate::counter::{counter_added, Counter, SAMPLE_MAX};
use crate::ux::ROUND_HUNDRED_MAX;

verus! {

/// The panel of one tracked process.
pub struct Process {
    /// CPU usage history, fixed-scaled to 100 percent.
    pub cpu: Counter,
    /// Memory usage history, auto-scaled.
    pub mem: Counter,
    /// The process id.
    pub pid: u64,
    /// Whether the process has disappeared from the snapshots.
    pub dead: bool,
    /// Full command line.
    pub cmd: String,
    /// Path to the executable.
    pub exe: String,
    /// Short name of the process.
    pub title: String,
    /// Panel rectangle; a zero width means the panel is not drawn.
    pub x: u16,
    pub y: u16,
    pub w: u16,
    pub h: u16,
    /// Whether CPU and memory graphs sit side by side.
    pub sided: bool,
    /// Total kilobytes written since tracking began.
    pub io_w_total: u64,
    /// Total kilobytes read since tracking began.
    pub io_r_total: u64,
    /// Kilobytes written since the previous snapshot.
    pub io_w_delta: u64,
    /// Kilobytes read since the previous snapshot.
    pub io_r_delta: u64,
    /// The timestamp at which the process was found dead, set exactly once.
    pub dead_since: Option<u64>,
    /// Read-total baseline captured when the user marked a point in time.
    pub mark_r_io: Option<u64>,
    /// Write-total baseline captured when the user marked a point in time.
    pub mark_w_io: Option<u64>,
}

/// The well-formedness every panel keeps: samples small enough for the axis
/// arithmetic, ordered axis bounds, and a grid of the recorded dimensions.
pub open spec fn counter_wf(c: Counter) -> bool {
    &&& forall|i: int| 0 <= i < c.values@.len() ==> c.values@[i] <= SAMPLE_MAX
    &&& c.gmin <= c.gmax
    &&& c.screen@.len() == c.w as nat * (c.h as nat + 1)
}

/// Both counters of a panel are well-formed.
pub open spec fn panel_wf(p: Process) -> bool {
    counter_wf(p.cpu) && counter_wf(p.mem)
}


/// What one max reset does to a panel: each counter's all-time maximum
/// becomes the maximum of its drawn window, and a fixed ceiling follows it.
pub open spec fn panel_maxes_reset(pre: Process, post: Process) -> bool {
    &&& post.cpu.max == crate::counter::seq_max_or_zero(
        crate::counter::spec_last_n(pre.cpu.values@, pre.cpu.w as nat),
    )
    &&& post.mem.max == crate::counter::seq_max_or_zero(
        crate::counter::spec_last_n(pre.mem.values@, pre.mem.w as nat),
    )
    &&& post.cpu.scale_to == (if pre.cpu.scale_to == 0 {
        pre.cpu.scale_to
    } else if post.cpu.max == 0 {
        100
    } else {
        crate::ux::spec_round_to_hundred(post.cpu.max) as u64
    })
    &&& post.mem.scale_to == (if pre.mem.scale_to == 0 {
        pre.mem.scale_to
    } else if post.mem.max == 0 {
        100
    } else {
        crate::ux::spec_round_to_hundred(post.mem.max) as u64
    })
    &&& post.cpu == (Counter { max: post.cpu.max, scale_to: post.cpu.scale_to, ..pre.cpu })
    &&& post.mem == (Counter { max: post.mem.max, scale_to: post.mem.scale_to, ..pre.mem })
    &&& post == (Process { cpu: post.cpu, mem: post.mem, ..pre })
}

/// What one mark toggle does to a panel: the memory baseline and both I/O
/// baselines are captured together, or cleared together.
pub open spec fn panel_mark_toggled(pre: Process, post: Process) -> bool {
    &&& post.mem.mark_value == (if pre.mem.mark_value is None {
        Some(crate::counter::spec_last(pre.mem))
    } else {
        None::<u64>
    })
    &&& post.mark_r_io == (if pre.mark_r_io is None {
        Some(pre.io_r_total)
    } else {
        None::<u64>
    })
    &&& post.mark_w_io == (if pre.mark_r_io is None {
        Some(pre.io_w_total)
    } else {
        None::<u64>
    })
    &&& post.mem == (Counter { mark_value: post.mem.mark_value, ..pre.mem })
    &&& post == (Process {
        mem: post.mem,
        mark_r_io: post.mark_r_io,
        mark_w_io: post.mark_w_io,
        ..pre
    })
}

/// What `dim` does to a panel: the rectangle and orientation are stored,
/// and a visible width assigns each counter the capacity its graph area
/// will have (headers take six or seven columns).
pub open spec fn panel_dimmed(
    pre: Process,
    post: Process,
    x: u16,
    y: u16,
    w: u16,
    h: u16,
    sided: bool,
) -> bool {
    &&& post.x == x && post.y == y && post.w == w && post.h == h
    &&& post.sided == sided
    &&& (w == 0 ==> post.cpu == pre.cpu && post.mem == pre.mem)
    &&& (w != 0 ==> {
        let cp_w: int = if sided {
            w as int / 2 - 6
        } else {
            w - 6
        };
        let mm_w: int = if sided {
            w - cp_w - 7
        } else {
            w - 7
        };
        &&& post.cpu == (Counter { display_cnt: post.cpu.display_cnt, ..pre.cpu })
        &&& post.mem == (Counter { display_cnt: post.mem.display_cnt, ..pre.mem })
        &&& post.cpu.display_cnt == cp_w
        &&& post.mem.display_cnt == mm_w
    })
    &&& post == (Process {
        x: x,
        y: y,
        w: w,
        h: h,
        sided: sided,
        cpu: post.cpu,
        mem: post.mem,
        ..pre
    })
}

impl Process {
    /// A fresh, live panel: CPU fixed-scaled to 100, memory auto-scaled,
    /// no samples, no rectangle, no marks.
    pub fn new(pid: u64, cmd: String, exe: String, title: String) -> (p: Process)
        ensures
            p.pid == pid,
            p.cmd@ == cmd@,
            p.exe@ == exe@,
            p.title@ == title@,
            !p.dead,
            p.dead_since is None,
            p.mark_r_io is None,
            p.mark_w_io is None,
            p.x == 0 && p.y == 0 && p.w == 0 && p.h == 0,
            !p.sided,
            p.io_w_total == 0 && p.io_r_total == 0 && p.io_w_delta == 0 && p.io_r_delta == 0,
            p.cpu.values@.len() == 0,
            p.cpu.scale_to == 100,
            !p.cpu.auto_scale,
            p.cpu.max == 0,
            p.cpu.display_cnt == 40,
            p.cpu.mark_value is None,
            p.cpu.gmin == 0 && p.cpu.gmax == 0,
            p.cpu.w == 0 && p.cpu.h == 0,
            p.mem.values@.len() == 0,
            p.mem.scale_to == 0,
            p.mem.auto_scale,
            p.mem.max == 0,
            p.mem.display_cnt == 40,
            p.mem.mark_value is None,
            p.mem.gmin == 0 && p.mem.gmax == 0,
            p.mem.w == 0 && p.mem.h == 0,
            panel_wf(p),
    {
        let mut cpu = Counter::default();
        cpu.scale_to = 100;
        let mut mem = Counter::default();
        mem.auto_scale = true;
        Process {
            cpu,
            mem,
            dead: false,
            x: 0,
            y: 0,
            w: 0,
            h: 0,
            io_w_total: 0,
            io_r_total: 0,
            io_w_delta: 0,
            io_r_delta: 0,
            dead_since: None,
            mark_r_io: None,
            mark_w_io: None,
            sided: false,
            pid,
            cmd,
            exe,
            title,
        }
    }

    /// Assigns the panel rectangle. A zero width hides the panel and leaves
    /// the counters untouched; otherwise the counters' capacities follow
    /// from the panel width and orientation.
    pub fn dim(&mut self, x: u16, y: u16, w: u16, h: u16, sided: bool)
        requires
            w == 0 || (sided && w >= 12) || (!sided && w >= 7),
        ensures
            panel_dimmed(*old(self), *final(self), x, y, w, h, sided),
    {
        self.x = x;
        self.y = y;
        self.w = w;
        self.h = h;
        self.sided = sided;
        if w == 0 {
            return;
        }
        let cp_w: u16 = if self.sided {
            (w / 2) - 6
        } else {
            w - 6
        };
        let mm_w: u16 = if self.sided {
            w - cp_w - 7
        } else {
            w - 7
        };
        self.cpu.display_cnt = cp_w as usize;
        self.mem.display_cnt = mm_w as usize;
    }

    /// Feeds one snapshot's CPU and memory samples into the counters. The
    /// very first CPU sample is recorded as zero: the first reading after
    /// discovery is meaningless.
    pub fn add(&mut self, cpu: u64, mem: u64)
        requires
            old(self).cpu.scale_to != 0 && cpu > old(self).cpu.scale_to ==> cpu
                <= ROUND_HUNDRED_MAX,
            old(self).mem.scale_to != 0 && mem > old(self).mem.scale_to ==> mem
                <= ROUND_HUNDRED_MAX,
        ensures
            counter_added(
                old(self).cpu,
                final(self).cpu,
                if old(self).cpu.values@.len() == 0 {
                    0
                } else {
                    cpu
                },
            ),
            counter_added(old(self).mem, final(self).mem, mem),
            *final(self) == (Process { cpu: final(self).cpu, mem: final(self).mem, ..*old(self) }),
    {
        if self.cpu.values.len() == 0 {
            self.cpu.add(0);
        } else {
            self.cpu.add(cpu);
        }
        self.mem.add(mem);
    }

    /// Switches the whole panel between absolute and since-mark display:
    /// the memory counter's baseline and the I/O total baselines are set
    /// together, or cleared together.
    pub fn toggle_mark(&mut self)
        ensures
            panel_mark_toggled(*old(self), *final(self)),
    {
        self.mem.toggle_mark();
        let is_off = self.mark_r_io.is_none();
        if is_off {
            self.mark_r_io = Some(self.io_r_total);
            self.mark_w_io = Some(self.io_w_total);
        } else {
            self.mark_r_io = None;
            self.mark_w_io = None;
        }
    }

    /// Resets both counters' all-time maxima to their drawn windows.
    pub fn reset_max(&mut self)
        requires
            old(self).cpu.scale_to != 0 ==> forall|i: int|
                0 <= i < old(self).cpu.values@.len() ==> old(self).cpu.values@[i]
                    <= ROUND_HUNDRED_MAX,
            old(self).mem.scale_to != 0 ==> forall|i: int|
                0 <= i < old(self).mem.values@.len() ==> old(self).mem.values@[i]
                    <= ROUND_HUNDRED_MAX,
        ensures
            panel_maxes_reset(*old(self), *final(self)),
    {
        self.cpu.reset_max();
        self.mem.reset_max();
    }

    /// The display name of the panel: the preferred field, falling back to
    /// the short title, the executable path, and the command line whenever
    /// the choice so far is empty.
    pub fn description(&self, mode: TitleMode) -> (r: String)
        ensures
            r@ == spec_description(*self, mode),
    {
        let mut desc: String = match mode {
            TitleMode::Cmd => self.cmd.clone(),
            TitleMode::Exe => self.exe.clone(),
            TitleMode::Title => self.title.clone(),
        };
        if desc.as_str().is_empty() {
            desc = self.title.clone();
        }
        if desc.as_str().is_empty() {
            desc = self.exe.clone();
        }
        if desc.as_str().is_empty() {
            desc = self.cmd.clone();
        }
        desc
    }

    /// The display comparison against another panel.
    pub fn order(&self, other: &Process) -> (r: core::cmp::Ordering)
        ensures
            r == spec_panel_cmp(*self, *other),
    {
        if self.dead && !other.dead {
            return core::cmp::Ordering::Greater;
        }
        if !self.dead && other.dead {
            return core::cmp::Ordering::Less;
        }
        if self.dead {
            return core::cmp::Ordering::Equal;
        }
        if self.pid > other.pid {
            return core::cmp::Ordering::Less;
        }
        core::cmp::Ordering::Greater
    }
}

/// The fallback chain for a panel's display name.
pub open spec fn spec_description(p: Process, mode: TitleMode) -> Seq<char> {
    let d0 = match mode {
        TitleMode::Cmd => p.cmd@,
        TitleMode::Exe => p.exe@,
        TitleMode::Title => p.title@,
    };
    let d1 = if d0.len() == 0 {
        p.title@
    } else {
        d0
    };
    let d2 = if d1.len() == 0 {
        p.exe@
    } else {
        d1
    };
    if d2.len() == 0 {
        p.cmd@
    } else {
        d2
    }
}

/// The display order of two panels: live panels sort before dead ones; two
/// dead panels compare equal (the dead-time tie-break reads the same
/// panel's timestamp for both sides, so it never separates them); two live
/// panels sort by descending process id.
pub open spec fn spec_panel_cmp(a: Process, b: Process) -> core::cmp::Ordering {
    if a.dead && !b.dead {
        core::cmp::Ordering::Greater
    } else if !a.dead && b.dead {
        core::cmp::Ordering::Less
    } else if a.dead {
        core::cmp::Ordering::Equal
    } else if a.pid > b.pid {
        core::cmp::Ordering::Less
    } else {
        core::cmp::Ordering::Greater
    }
}

/// `a` may stand at or before `b` in display order.
pub open spec fn spec_panel_le(a: Process, b: Process) -> bool {
    spec_panel_cmp(a, b) != core::cmp::Ordering::Greater
}

/// Law: a dead panel never sorts before a live one.
pub proof fn lemma_dead_panels_last(a: Process, b: Process)
    requires
        !a.dead,
        b.dead,
    ensures
        spec_panel_cmp(a, b) == core::cmp::Ordering::Less,
        spec_panel_cmp(b, a) == core::cmp::Ordering::Greater,
        spec_panel_le(a, b),
        !spec_panel_le(b, a),
{
}

/// The display order is transitive.
pub proof fn lemma_panel_le_trans(a: Process, b: Process, c: Process)
    requires
        spec_panel_le(a, b),
        spec_panel_le(b, c),
    ensures
        spec_panel_le(a, c),
{
}

/// Two panels that are not both live with the same process id are always
/// comparable.
pub proof fn lemma_panel_le_total(a: Process, b: Process)
    requires
        !a.dead && !b.dead ==> a.pid != b.pid,
    ensures
        spec_panel_le(a, b) || spec_panel_le(b, a),
{
}

/// Every pair of panels stands in display order.
pub open spec fn panels_sorted(s: Seq<Process>) -> bool {
    forall|i: int, j: int| 0 <= i < j < s.len() ==> spec_panel_le(s[i], s[j])
}

/// No two live panels share a process id.
pub open spec fn live_pids_unique(s: Seq<Process>) -> bool {
    forall|i: int, j: int|
        0 <= i < j < s.len() && !s[i].dead && !s[j].dead ==> s[i].pid != s[j].pid
}

/// A sequence whose multiset has a member holds it at some position.
proof fn lemma_multiset_member_position(s: Seq<Process>, x: Process) -> (i: int)
    requires
        s.to_multiset().count(x) >= 1,
    ensures
        0 <= i < s.len(),
        s[i] == x,
{
    broadcast use group_to_multiset_ensures;

    assert(s.contains(x));
    choose|i: int| 0 <= i < s.len() && s[i] == x
}

/// A sequence whose multiset holds a value twice holds it at two positions.
proof fn lemma_multiset_two_positions(s: Seq<Process>, x: Process) -> (r: (int, int))
    requires
        s.to_multiset().count(x) >= 2,
    ensures
        0 <= r.0 < s.len(),
        0 <= r.1 < s.len(),
        r.0 != r.1,
        s[r.0] == x,
        s[r.1] == x,
{
    broadcast use group_to_multiset_ensures;

    let i = lemma_multiset_member_position(s, x);
    let s2 = s.remove(i);
    assert(s2.to_multiset() =~= s.to_multiset().remove(x));
    let j2 = lemma_multiset_member_position(s2, x);
    let j = if j2 < i {
        j2
    } else {
        j2 + 1
    };
    (i, j)
}

/// Live-pid uniqueness transfers across any permutation.
proof fn lemma_unique_permutes(s1: Seq<Process>, s2: Seq<Process>)
    requires
        s1.to_multiset() == s2.to_multiset(),
        live_pids_unique(s1),
    ensures
        live_pids_unique(s2),
{
    broadcast use group_to_multiset_ensures;

    assert forall|i: int, j: int|
        0 <= i < j < s2.len() && !s2[i].dead && !s2[j].dead implies s2[i].pid != s2[j].pid by {
        let x = s2[i];
        let y = s2[j];
        if x.pid == y.pid {
            if x == y {
                let s0 = s2.subrange(0, j);
                let s3 = s2.subrange(j, s2.len() as int);
                assert(s2 == s0 + s3);
                lemma_multiset_commutative(s0, s3);
                assert(s0.to_multiset().count(x) >= 1);
                assert(s3.to_multiset().count(x) >= 1);
                assert(s2.to_multiset().count(x) >= 2);
                let pos = lemma_multiset_two_positions(s1, x);
                assert(false);
            } else {
                let a = lemma_multiset_member_position(s1, x);
                let b = lemma_multiset_member_position(s1, y);
                assert(false);
            }
        }
    }
}

/// Sorts the panels into display order: live panels first in descending
/// pid order, dead panels after them, the panels themselves a permutation
/// of the input.
#[verifier::rlimit(60)]
pub fn sort_panels(v: &mut Vec<Process>)
    requires
        live_pids_unique(old(v)@),
    ensures
        panels_sorted(final(v)@),
        final(v)@.to_multiset() == old(v)@.to_multiset(),
        final(v)@.len() == old(v)@.len(),
        live_pids_unique(final(v)@),
{
    broadcast use group_to_multiset_ensures;
    broadcast use vstd::multiset::group_multiset_axioms;

    let len = v.len();
    if len <= 1 {
        return;
    }
    let mut i: usize = 1;
    while i < len
        invariant
            1 <= i <= len,
            len == v@.len(),
            v@.to_multiset() == old(v)@.to_multiset(),
            live_pids_unique(v@),
            forall|a: int, b: int| 0 <= a < b < i ==> spec_panel_le(v@[a], v@[b]),
        decreases len - i,
    {
        let ghost s_i = v@;
        let p = v.remove(i);
        let ghost prev = v@;
        proof {
            broadcast use to_multiset_remove;

            assert(prev == s_i.remove(i as int));
            assert(s_i.remove(i as int).to_multiset() == s_i.to_multiset().remove(s_i[i as int]));
            assert(prev.to_multiset() =~= s_i.to_multiset().remove(p));
            // The prefix below i is untouched by the removal.
            assert forall|m: int| 0 <= m < i implies prev[m] == s_i[m] by {
                assert(s_i.remove(i as int)[m] == s_i[m]);
            }
        }
        let mut k: usize = i;
        loop
            invariant
                k <= i,
                i < len,
                len == v@.len() + 1,
                v@ == prev,
                forall|m: int| k <= m < i ==> !spec_panel_le(prev[m], p),
            ensures
                k <= i,
                v@ == prev,
                forall|m: int| k <= m < i ==> !spec_panel_le(prev[m], p),
                k == 0 || spec_panel_le(prev[k - 1], p),
            decreases k,
        {
            if k == 0 {
                break ;
            }
            if le_exec(&v[k - 1], &p) {
                break ;
            }
            k = k - 1;
        }
        proof {
            // Every element the new panel passed must come after it: the
            // two are comparable because live pids are unique.
            assert forall|m: int| k <= m < i implies spec_panel_le(p, prev[m]) by {
                if !p.dead && !prev[m].dead && p.pid == prev[m].pid {
                    assert(s_i[m] == prev[m]);
                    assert(s_i[i as int] == p);
                    assert(false);
                }
                lemma_panel_le_total(p, prev[m]);
            }
        }
        v.insert(k, p);
        proof {
            broadcast use to_multiset_insert;

            let s_new = v@;
            prev.insert_ensures(k as int, p);
            assert(prev.insert(k as int, p).to_multiset() == prev.to_multiset().insert(p));
            assert(s_new.to_multiset() =~= prev.to_multiset().insert(p));
            assert(s_i[i as int] == p);
            assert(s_i.contains(p));
            vstd::seq_lib::to_multiset_contains(s_i, p);
            assert(s_i.to_multiset().count(p) > 0);
            assert(s_new.to_multiset() =~= s_i.to_multiset());
            lemma_unique_permutes(s_i, s_new);
            assert forall|a: int, b: int| 0 <= a < b < i + 1 implies spec_panel_le(
                s_new[a],
                s_new[b],
            ) by {
                let ki = k as int;
                if b < ki {
                    assert(s_new[a] == prev[a] && s_new[b] == prev[b]);
                } else if b == ki {
                    assert(s_new[b] == p);
                    assert(s_new[a] == prev[a]);
                    assert(spec_panel_le(prev[ki - 1], p));
                    if a < ki - 1 {
                        lemma_panel_le_trans(prev[a], prev[ki - 1], p);
                    }
                } else {
                    assert(s_new[b] == prev[b - 1]);
                    if a < ki {
                        assert(s_new[a] == prev[a]);
                        if b - 1 < i {
                            assert(spec_panel_le(prev[a], prev[b - 1]));
                        }
                    } else if a == ki {
                        assert(s_new[a] == p);
                        assert(spec_panel_le(p, prev[b - 1]));
                    } else {
                        assert(s_new[a] == prev[a - 1]);
                        assert(spec_panel_le(prev[a - 1], prev[b - 1]));
                    }
                }
            }
        }
        i = i + 1;
    }
}

fn le_exec(a: &Process, b: &Process) -> (r: bool)
    ensures
        r == spec_panel_le(*a, *b),
{
    let o = a.order(b);
    match o {
        core::cmp::Ordering::Greater => false,
        _ => true,
    }
}

} // verus!
