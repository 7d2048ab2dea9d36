//! The rolling measurement buffer of one metric: bounded history, running
//! maximum, axis scaling, and rasterization into a character grid with
//! sub-character resolution.

use vstd::prelude::*;

use crate::config::{Config, Detail};
use crate::ux::{
    round_to_hundred, short_round, spec_round_to_hundred, spec_short_round, ROUND_HUNDRED_MAX,
};

verus! {

/// Largest sample value the scaling arithmetic accepts: axis rounding of a
/// bounded sample always fits back in a `u64`.
pub const SAMPLE_MAX: u64 = 0x1fffffffffffffff;

/// A single counter managing one stream of measurements.
pub struct Counter {
    /// The retained samples, oldest first.
    pub values: Vec<u64>,
    /// Capacity of the buffer: how many samples are kept and drawn.
    pub display_cnt: usize,
    /// All-time maximum of every sample ever added.
    pub max: u64,
    /// Fixed display ceiling; 0 means none.
    pub scale_to: u64,
    /// When set, axis bounds come from the retained window, not `scale_to`.
    pub auto_scale: bool,
    /// Baseline sample for difference display, if the user marked one.
    pub mark_value: Option<u64>,
    /// Width of the rasterized grid.
    pub w: u16,
    /// Height of the rasterized grid, not counting the trend row.
    pub h: u16,
    /// The rasterized graph: `w * (h + 1)` characters, row-major, with one
    /// extra trend row at the bottom.
    pub screen: Vec<char>,
    /// Rounded lower axis bound of the visible window.
    pub gmin: u64,
    /// Rounded upper axis bound of the visible window.
    pub gmax: u64,
}

impl Default for Counter {
    /// An empty buffer for forty samples, no fixed scale, no auto-scale.
    fn default() -> (c: Counter)
        ensures
            c.values@ == Seq::<u64>::empty(),
            c.display_cnt == 40,
            c.max == 0,
            c.scale_to == 0,
            c.auto_scale == false,
            c.mark_value is None,
            c.w == 0,
            c.h == 0,
            c.screen@ == Seq::<char>::empty(),
            c.gmin == 0,
            c.gmax == 0,
    {
        Counter {
            values: Vec::new(),
            display_cnt: 40,
            scale_to: 0,
            max: 0,
            auto_scale: false,
            w: 0,
            h: 0,
            screen: Vec::new(),
            gmin: 0,
            gmax: 0,
            mark_value: None,
        }
    }
}

/// What one `add` does to the retained samples: append while below
/// capacity, else shift everything left by one and put the new sample last.
pub open spec fn spec_add_values(vals: Seq<u64>, cnt: nat, val: u64) -> Seq<u64> {
    if vals.len() == 0 || vals.len() < cnt {
        vals.push(val)
    } else {
        vals.subrange(1, vals.len() as int).push(val)
    }
}

/// The latest sample, or 0 for an empty buffer.
pub open spec fn spec_last(c: Counter) -> u64 {
    if c.values@.len() == 0 {
        0
    } else {
        c.values@.last()
    }
}

/// The maximum of a sample sequence, or 0 if it is empty.
pub open spec fn seq_max_or_zero(s: Seq<u64>) -> u64
    decreases s.len(),
{
    if s.len() == 0 {
        0
    } else {
        let m = seq_max_or_zero(s.drop_last());
        if s.last() > m {
            s.last()
        } else {
            m
        }
    }
}

/// The maximum of a sequence is no larger than any bound on its elements.
pub proof fn lemma_seq_max_le(s: Seq<u64>, bound: u64)
    requires
        forall|i: int| 0 <= i < s.len() ==> s[i] <= bound,
    ensures
        seq_max_or_zero(s) <= bound,
    decreases s.len(),
{
    if s.len() > 0 {
        lemma_seq_max_le(s.drop_last(), bound);
    }
}

/// The window that `max_last_n(n)` inspects: the last `n` samples, or all
/// of them when fewer are retained.
pub open spec fn spec_last_n(vals: Seq<u64>, n: nat) -> Seq<u64> {
    if n >= vals.len() {
        vals
    } else {
        vals.skip(vals.len() - n)
    }
}

/// How one `add` call transforms a counter: the buffer rolls, the running
/// maximum absorbs the sample, and a fixed ceiling that the sample exceeds
/// is re-derived by rounding up to the next hundred.
pub open spec fn counter_added(pre: Counter, post: Counter, val: u64) -> bool {
    &&& post.values@ == spec_add_values(pre.values@, pre.display_cnt as nat, val)
    &&& post.max == (if val > pre.max {
        val
    } else {
        pre.max
    })
    &&& post.scale_to == (if pre.scale_to != 0 && val > pre.scale_to {
        spec_round_to_hundred(val) as u64
    } else {
        pre.scale_to
    })
    &&& post == (Counter {
        values: post.values,
        max: post.max,
        scale_to: post.scale_to,
        ..pre
    })
}

/// The value `last_diff` compares the latest sample against: the mark
/// baseline when one is set, else the sample before the latest.
pub open spec fn spec_diff_base(c: Counter) -> u64 {
    match c.mark_value {
        Some(p) => p,
        None => c.values@[c.values@.len() - 2],
    }
}

impl Counter {
    /// Appends a measurement, dropping the oldest retained sample once the
    /// buffer is at capacity, and keeps the running maximum and the fixed
    /// scale ceiling up to date.
    pub fn add(&mut self, val: u64)
        requires
            old(self).scale_to != 0 && val > old(self).scale_to ==> val <= ROUND_HUNDRED_MAX,
        ensures
            counter_added(*old(self), *final(self), val),
    {
        if val > self.max {
            self.max = val;
        }
        if self.scale_to != 0 && self.scale_to < val {
            self.scale_to = round_to_hundred(val);
        }
        let l = self.values.len();
        if l == 0 || l < self.display_cnt {
            self.values.push(val);
            return;
        }
        let ghost snap = *self;
        let ghost orig = self.values@;
        let mut idx: usize = 0;
        while idx < l - 1
            invariant
                l >= 1,
                l == self.values@.len(),
                idx <= l - 1,
                forall|j: int| 0 <= j < idx ==> self.values@[j] == orig[j + 1],
                forall|j: int| idx <= j < l ==> self.values@[j] == orig[j],
                *self == (Counter { values: self.values, ..snap }),
            decreases l - idx,
        {
            let next = self.values[idx + 1];
            self.values.set(idx, next);
            idx = idx + 1;
        }
        self.values.set(l - 1, val);
        proof {
            assert(self.values@ =~= orig.subrange(1, l as int).push(val));
        }
    }

    /// The latest sample, or 0 when nothing has been measured yet.
    pub fn last(&self) -> (r: u64)
        ensures
            r == spec_last(*self),
    {
        if self.values.len() == 0 {
            return 0;
        }
        self.values[self.values.len() - 1]
    }

    /// The change of the latest sample against the mark baseline if one is
    /// set, else against the sample before it; 0 with fewer than two
    /// samples.
    pub fn last_diff(&self) -> (r: i64)
        requires
            self.values@.len() >= 2 ==> self.values@.last() <= i64::MAX as u64 && spec_diff_base(
                *self,
            ) <= i64::MAX as u64,
        ensures
            r as int == (if self.values@.len() < 2 {
                0
            } else {
                self.values@.last() - spec_diff_base(*self)
            }),
    {
        let l = self.values.len();
        if l < 2 {
            return 0;
        }
        let last = self.values[l - 1] as i64;
        let prev: u64 = if let Some(p) = self.mark_value {
            p
        } else {
            self.values[l - 2]
        };
        last - prev as i64
    }

    /// The largest of the most recent `n` samples; 0 when none are
    /// inspected.
    pub fn max_last_n(&self, n: usize) -> (r: u64)
        ensures
            r == seq_max_or_zero(spec_last_n(self.values@, n as nat)),
    {
        let l = self.values.len();
        let start: usize = if n >= l {
            0
        } else {
            l - n
        };
        let mut mx: u64 = 0;
        let mut i: usize = start;
        while i < l
            invariant
                start <= i <= l,
                l == self.values@.len(),
                mx == seq_max_or_zero(self.values@.subrange(start as int, i as int)),
            decreases l - i,
        {
            let ghost pre = self.values@.subrange(start as int, i as int);
            let v = self.values[i];
            if v > mx {
                mx = v;
            }
            proof {
                assert(self.values@.subrange(start as int, i as int + 1).drop_last() =~= pre);
                assert(self.values@.subrange(start as int, i as int + 1).last() == self.values@[i as int]);
            }
            i = i + 1;
        }
        proof {
            if n >= l {
                assert(self.values@.subrange(start as int, l as int) =~= self.values@);
            } else {
                assert(self.values@.subrange(start as int, l as int) =~= self.values@.skip(
                    l - n,
                ));
            }
        }
        mx
    }

    /// Captures the latest sample as the mark baseline, or clears the
    /// baseline if one was set.
    pub fn toggle_mark(&mut self)
        ensures
            final(self).mark_value == (if old(self).mark_value is None {
                Some(spec_last(*old(self)))
            } else {
                None::<u64>
            }),
            *final(self) == (Counter { mark_value: final(self).mark_value, ..*old(self) }),
    {
        let is_off = self.mark_value.is_none();
        if is_off {
            let v = self.last();
            self.mark_value = Some(v);
        } else {
            self.mark_value = None;
        }
    }

    /// Replaces the all-time maximum with the maximum of the currently
    /// drawn window, and re-derives the fixed scale from it (floor 100).
    pub fn reset_max(&mut self)
        requires
            old(self).scale_to != 0 ==> forall|i: int|
                0 <= i < old(self).values@.len() ==> old(self).values@[i] <= ROUND_HUNDRED_MAX,
        ensures
            final(self).max == seq_max_or_zero(
                spec_last_n(old(self).values@, old(self).w as nat),
            ),
            final(self).scale_to == (if old(self).scale_to == 0 {
                old(self).scale_to
            } else if final(self).max == 0 {
                100
            } else {
                spec_round_to_hundred(final(self).max) as u64
            }),
            *final(self) == (Counter { max: final(self).max, scale_to: final(self).scale_to, ..*old(self) }),
    {
        let m = self.max_last_n(self.w as usize);
        self.max = m;
        if self.scale_to != 0 {
            if self.max == 0 {
                self.scale_to = 100;
            } else {
                proof {
                    lemma_seq_max_le(
                        spec_last_n(self.values@, self.w as nat),
                        ROUND_HUNDRED_MAX,
                    );
                }
                self.scale_to = round_to_hundred(self.max);
            }
        }
    }
}

/// The glyph table of a detail level: index 0 is blank, the highest index
/// is the full block, and high detail ramps through the eight partial
/// blocks in between.
pub open spec fn glyph_at(d: Detail, i: int) -> char {
    match d {
        Detail::Low => if i <= 0 {
            ' '
        } else {
            '\u{2588}'
        },
        Detail::Medium => if i <= 0 {
            ' '
        } else if i == 1 {
            '\u{2584}'
        } else {
            '\u{2588}'
        },
        Detail::High => if i <= 0 {
            ' '
        } else if i == 1 {
            '\u{2581}'
        } else if i == 2 {
            '\u{2582}'
        } else if i == 3 {
            '\u{2583}'
        } else if i == 4 {
            '\u{2584}'
        } else if i == 5 {
            '\u{2585}'
        } else if i == 6 {
            '\u{2586}'
        } else if i == 7 {
            '\u{2587}'
        } else {
            '\u{2588}'
        },
    }
}

fn glyph_at_exec(d: Detail, i: u64) -> (c: char)
    ensures
        c == glyph_at(d, i as int),
{
    match d {
        Detail::Low => if i == 0 {
            ' '
        } else {
            '\u{2588}'
        },
        Detail::Medium => if i == 0 {
            ' '
        } else if i == 1 {
            '\u{2584}'
        } else {
            '\u{2588}'
        },
        Detail::High => if i == 0 {
            ' '
        } else if i == 1 {
            '\u{2581}'
        } else if i == 2 {
            '\u{2582}'
        } else if i == 3 {
            '\u{2583}'
        } else if i == 4 {
            '\u{2584}'
        } else if i == 5 {
            '\u{2585}'
        } else if i == 6 {
            '\u{2586}'
        } else if i == 7 {
            '\u{2587}'
        } else {
            '\u{2588}'
        },
    }
}

/// The glyph for a cell filled to the fraction `num / den`: a full block at
/// or above one, blank at zero, else the glyph whose index is the fraction
/// scaled by the detail level's glyph count, rounded down.
pub open spec fn spec_char_for(num: nat, den: nat, conf: Config) -> char {
    if num >= den {
        '\u{2588}'
    } else if num == 0 {
        ' '
    } else {
        glyph_at(conf.detail, (num * (crate::config::spec_steps(conf.detail) + 1)) as int / den as int)
    }
}

/// Picks the glyph for a cell filled to the fraction `num / den`.
pub fn char_for_value(num: u64, den: u64, conf: &Config) -> (c: char)
    requires
        1 <= den,
    ensures
        c == spec_char_for(num as nat, den as nat, *conf),
{
    if num >= den {
        return '\u{2588}';
    }
    if num == 0 {
        return ' ';
    }
    let steps = conf.steps();
    proof {
        assert(crate::config::spec_steps(conf.detail) <= 8);
    }
    let levels: u128 = steps as u128 + 1;
    proof {
        assert(num as nat * levels as nat <= 9 * 0xffffffffffffffff) by (nonlinear_arith)
            requires
                num <= 0xffffffffffffffff,
                levels <= 9,
        ;
    }
    let idx128: u128 = num as u128 * levels / den as u128;
    proof {
        assert(num as nat * (steps + 1) as nat / den as nat <= 9) by (nonlinear_arith)
            requires
                num < den,
                1 <= den,
                steps <= 8,
        ;
    }
    glyph_at_exec(conf.detail, idx128 as u64)
}

/// Law: at high detail the eight equal eighths of a cell map to the eight
/// ascending glyphs of the ramp: fraction `k/8` draws glyph `k`, blank at
/// zero.
pub proof fn lemma_high_detail_ramp(k: nat, conf: Config)
    requires
        k < 8,
        conf.detail == Detail::High,
    ensures
        spec_char_for(k, 8, conf) == glyph_at(Detail::High, k as int),
{
}

/// Law: the high-detail ramp never repeats a glyph, so the eight eighth
/// steps are pairwise distinct and strictly ascend the block ramp.
pub proof fn lemma_high_ramp_distinct(k1: nat, k2: nat, conf: Config)
    requires
        k1 < k2 < 8,
        conf.detail == Detail::High,
    ensures
        spec_char_for(k1, 8, conf) != spec_char_for(k2, 8, conf),
{
    assert(k1 * 9 / 8 == k1) by (nonlinear_arith)
        requires
            k1 < 8,
    ;
    assert(k2 * 9 / 8 == k2) by (nonlinear_arith)
        requires
            k2 < 8,
    ;
}

/// Law: a cell filled to one or beyond draws the full block at every
/// detail level.
pub proof fn lemma_full_cell(num: nat, den: nat, conf: Config)
    requires
        num >= den,
    ensures
        spec_char_for(num, den, conf) == '\u{2588}',
{
}

/// The smallest sample of a non-empty sequence.
pub open spec fn seq_min(s: Seq<u64>) -> u64
    decreases s.len(),
{
    if s.len() <= 1 {
        s[0]
    } else {
        let m = seq_min(s.drop_last());
        if s.last() < m {
            s.last()
        } else {
            m
        }
    }
}

/// The minimum is a lower bound for every element.
pub proof fn lemma_seq_min_le(s: Seq<u64>, i: int)
    requires
        0 <= i < s.len(),
    ensures
        seq_min(s) <= s[i],
    decreases s.len(),
{
    if s.len() > 1 && i < s.len() - 1 {
        lemma_seq_min_le(s.drop_last(), i);
    }
}

proof fn lemma_distinct_buckets(d1: nat, c1: nat, d2: nat, c2: nat, k1: nat, k2: nat)
    requires
        c1 == crate::ux::pow1024(k1),
        c2 == crate::ux::pow1024(k2),
        d1 < 1024,
        d2 < 1024,
        c1 > 1 ==> d1 >= 1,
        c2 > 1 ==> d2 >= 1,
        d1 * c1 == d2 * c2,
    ensures
        d1 == d2,
        c1 == c2,
{
    crate::ux::lemma_pow1024_increases(0, k1);
    crate::ux::lemma_pow1024_increases(0, k2);
    if k1 < k2 {
        crate::ux::lemma_pow1024_increases(k1, k2);
        assert(c2 >= 1024 * c1);
        assert(d2 >= 1);
        assert(d2 * c2 >= 1024 * c1) by (nonlinear_arith)
            requires
                d2 >= 1,
                c2 >= 1024 * c1,
                c1 >= 1,
        ;
        assert(d1 >= 1024) by (nonlinear_arith)
            requires
                d1 * c1 >= 1024 * c1,
                c1 >= 1,
        ;
        assert(false);
    } else if k2 < k1 {
        crate::ux::lemma_pow1024_increases(k2, k1);
        assert(d1 * c1 >= 1024 * c2) by (nonlinear_arith)
            requires
                d1 >= 1,
                c1 >= 1024 * c2,
                c2 >= 1,
        ;
        assert(d2 >= 1024) by (nonlinear_arith)
            requires
                d2 * c2 >= 1024 * c2,
                c2 >= 1,
        ;
        assert(false);
    } else {
        assert(d1 == d2) by (nonlinear_arith)
            requires
                d1 * c1 == d2 * c1,
                c1 >= 1,
        ;
    }
}

impl Counter {
    /// Recomputes the rounded axis bounds of the retained window for an
    /// auto-scaled counter: the minimum rounded down to a short bucket, the
    /// maximum rounded up, and the upper digit bumped when the two rounded
    /// digits collide, so the bounds always enclose the window and the
    /// lower bound stays strictly below the upper.
    pub fn calculate_range(&mut self)
        requires
            old(self).auto_scale && old(self).values@.len() > 0 ==> forall|i: int|
                0 <= i < old(self).values@.len() ==> old(self).values@[i] <= SAMPLE_MAX,
        ensures
            !(old(self).auto_scale && old(self).values@.len() > 0) ==> *final(self) == *old(self),
            old(self).auto_scale && old(self).values@.len() > 0 ==> {
                let mn = seq_min(old(self).values@);
                let mx = seq_max_or_zero(old(self).values@);
                let dn = spec_short_round(mn as nat, true);
                let up = spec_short_round(mx as nat, false);
                &&& final(self).gmin == dn.0 * dn.1
                &&& final(self).gmax == (if dn.0 == up.0 {
                    (up.0 + 1) * up.1
                } else {
                    up.0 * up.1
                })
                &&& final(self).gmin <= mn
                &&& mx <= final(self).gmax
                &&& final(self).gmin < final(self).gmax
                &&& *final(self) == (Counter {
                    gmin: final(self).gmin,
                    gmax: final(self).gmax,
                    ..*old(self)
                })
            },
    {
        if !self.auto_scale || self.values.len() == 0 {
            return;
        }
        let l = self.values.len();
        let mut mn = self.values[0];
        let mut mx: u64 = 0;
        let mut i: usize = 0;
        proof {
            assert(self.values@.subrange(0, 0) =~= Seq::<u64>::empty());
        }
        while i < l
            invariant
                i <= l,
                l == self.values@.len(),
                l >= 1,
                mn == (if i == 0 {
                    self.values@[0]
                } else {
                    seq_min(self.values@.subrange(0, i as int))
                }),
                mx == seq_max_or_zero(self.values@.subrange(0, i as int)),
            decreases l - i,
        {
            let ghost pre = self.values@.subrange(0, i as int);
            let v = self.values[i];
            if mn > v {
                mn = v;
            }
            if mx < v {
                mx = v;
            }
            proof {
                assert(self.values@.subrange(0, i as int + 1).drop_last() =~= pre);
                assert(self.values@.subrange(0, i as int + 1).last() == self.values@[i as int]);
                if i == 0 {
                    assert(self.values@.subrange(0, 1).len() == 1);
                }
            }
            i = i + 1;
        }
        proof {
            assert(self.values@.subrange(0, l as int) =~= self.values@);
        }
        let rdn = short_round(mn, true);
        let rup = short_round(mx, false);
        let min_rnd = rdn.0;
        let min_coef = rdn.1;
        let mut max_rnd = rup.0;
        let max_coef = rup.1;
        proof {
            lemma_seq_max_le(self.values@, SAMPLE_MAX);
            assert(mx <= SAMPLE_MAX);
            lemma_seq_min_le(self.values@, 0);
        }
        if min_rnd == max_rnd {
            max_rnd = max_rnd + 1;
        }
        proof {
            // The re-expanded bounds still fit: rounding up overshoots by
            // less than one scale unit, and one bump adds one more.
            assert(max_rnd as nat * max_coef as nat <= rup.0 as nat * rup.1 as nat + rup.1 as nat)
                by (nonlinear_arith)
                requires
                    max_rnd <= rup.0 + 1,
                    max_coef == rup.1,
            ;
        }
        self.gmin = min_rnd * min_coef;
        self.gmax = max_rnd * max_coef;
        proof {
            // Strictness: a bump lifts the upper bound strictly above the
            // window maximum; without a bump, equal re-expanded buckets
            // would force equal digits, which the no-bump branch excludes.
            if max_rnd != rup.0 {
                assert(max_rnd as nat * max_coef as nat == rup.0 as nat * rup.1 as nat
                    + rup.1 as nat) by (nonlinear_arith)
                    requires
                        max_rnd as nat == rup.0 as nat + 1,
                        max_coef == rup.1,
                ;
                assert(self.gmax as nat >= mx as nat + 1);
                assert(self.gmin < self.gmax);
            } else {
                assert(mx <= self.gmax);
                if self.gmin == self.gmax {
                    let k1 = choose|k: nat| min_coef as nat == crate::ux::pow1024(k);
                    let k2 = choose|k: nat| max_coef as nat == crate::ux::pow1024(k);
                    lemma_distinct_buckets(
                        min_rnd as nat,
                        min_coef as nat,
                        max_rnd as nat,
                        max_coef as nat,
                        k1,
                        k2,
                    );
                    assert(false);
                }
                assert(self.gmin < self.gmax);
            }
        }
    }
}

/// The axis span a counter is drawn against: the window range for an
/// auto-scaled counter (or zero to the all-time maximum when the
/// configuration asks for that), else the fixed ceiling.
pub open spec fn spec_span(c: Counter, conf: Config) -> int {
    if c.auto_scale {
        if conf.scale_max {
            c.max as int
        } else {
            c.gmax - c.gmin
        }
    } else {
        c.scale_to as int
    }
}

/// The axis floor a counter is drawn against.
pub open spec fn spec_base(c: Counter, conf: Config) -> int {
    if c.auto_scale && !conf.scale_max {
        c.gmin as int
    } else {
        0
    }
}

/// A sample shifted to the axis floor and clipped into `[0, span]`.
pub open spec fn spec_clipped(v: u64, span: int, base: int) -> int {
    let d: int = if v >= base {
        v - base
    } else {
        0
    };
    if d > span {
        span
    } else {
        d
    }
}

/// How many grid rows a sample fills completely: the clipped value divided
/// by the `span / h` units each row stands for.
pub open spec fn spec_full_rows(v: u64, span: int, base: int, h: nat) -> int {
    spec_clipped(v, span, base) * h / span
}

/// The numerator of the fraction of one row that remains above the full
/// rows, over the denominator `span`.
pub open spec fn spec_frac_num(v: u64, span: int, base: int, h: nat) -> int {
    spec_clipped(v, span, base) * h % span
}

/// The graph character of one sample at grid row `y` (row 0 on top): full
/// blocks over the bottom `full` rows, one partial glyph directly above
/// them, blank elsewhere. A sample at or beyond the span top fills its
/// whole column; one at or below the floor leaves it blank.
pub open spec fn spec_column_char(
    v: u64,
    span: int,
    base: int,
    h: nat,
    y: int,
    conf: Config,
) -> char {
    let full = spec_full_rows(v, span, base, h);
    if y + full >= h {
        '\u{2588}'
    } else if y + full + 1 == h {
        spec_char_for(spec_frac_num(v, span, base, h) as nat, span as nat, conf)
    } else {
        ' '
    }
}

/// The trend mark under one column: whether the sample rose, fell, or
/// stayed flat against the previous column; the all-ones value doubles as
/// the no-previous-sample sentinel and draws a blank.
pub open spec fn spec_trend_char(p: u64, v: u64) -> char {
    if p == u64::MAX || p == v {
        ' '
    } else if p > v {
        '-'
    } else {
        '+'
    }
}

/// The whole rasterized grid, cell by cell: the last `w` samples take the
/// rightmost columns (shorter histories leave blank columns on the left),
/// rows `0..h` hold the graph, row `h` the trend marks. An empty history or
/// an empty span leaves everything blank.
pub open spec fn spec_cell(
    vals: Seq<u64>,
    span: int,
    base: int,
    w: int,
    h: int,
    conf: Config,
    x: int,
    y: int,
) -> char {
    if vals.len() == 0 || span <= 0 {
        ' '
    } else {
        let n: int = if vals.len() <= w {
            vals.len() as int
        } else {
            w
        };
        let start = w - n;
        if x < start {
            ' '
        } else {
            let v = vals[vals.len() - n + (x - start)];
            if y < h {
                spec_column_char(v, span, base, h as nat, y, conf)
            } else {
                let p = if x == start {
                    u64::MAX
                } else {
                    vals[vals.len() - n + (x - start) - 1]
                };
                spec_trend_char(p, v)
            }
        }
    }
}

fn cell_char(v: u64, p: u64, span: u64, base: u64, h: u16, conf: &Config, y: u16) -> (c: char)
    requires
        1 <= span,
        y <= h,
    ensures
        y < h ==> c == spec_column_char(v, span as int, base as int, h as nat, y as int, *conf),
        y == h ==> c == spec_trend_char(p, v),
{
    if y == h {
        if p == u64::MAX || p == v {
            return ' ';
        } else if p > v {
            return '-';
        } else {
            return '+';
        }
    }
    let delta0: u64 = if v >= base {
        v - base
    } else {
        0
    };
    let delta: u64 = if delta0 > span {
        span
    } else {
        delta0
    };
    proof {
        assert(delta as nat * h as nat <= span as nat * 0xffff) by (nonlinear_arith)
            requires
                delta <= span,
                h <= 0xffff,
        ;
        assert(delta as nat * h as nat / span as nat <= 0xffff) by (nonlinear_arith)
            requires
                delta as nat * h as nat <= span as nat * 0xffff,
                1 <= span,
        ;
    }
    let prod: u128 = delta as u128 * h as u128;
    let full128: u128 = prod / span as u128;
    let frac128: u128 = prod % span as u128;
    let full: usize = full128 as usize;
    let frac: u64 = frac128 as u64;
    let yy = y as usize;
    let hh = h as usize;
    if yy + full >= hh {
        '\u{2588}'
    } else if yy + full + 1 == hh {
        char_for_value(frac, span, conf)
    } else {
        ' '
    }
}

impl Counter {
    /// Rasterizes the retained samples into the `neww x (newh + 1)` grid,
    /// re-allocating it only when the dimensions changed. Every cell of the
    /// result is the one `spec_cell` prescribes for the counter's samples
    /// and current axis scale.
    pub fn update(&mut self, neww: u16, newh: u16, conf: &Config)
        requires
            old(self).auto_scale && !conf.scale_max ==> old(self).gmin <= old(self).gmax,
        ensures
            final(self).screen@.len() == neww as nat * (newh as nat + 1),
            forall|x: int, y: int|
                0 <= x < neww && 0 <= y <= newh ==> final(self).screen@[y * neww + x] == spec_cell(
                    old(self).values@,
                    spec_span(*old(self), *conf),
                    spec_base(*old(self), *conf),
                    neww as int,
                    newh as int,
                    *conf,
                    x,
                    y,
                ),
            *final(self) == (Counter {
                w: neww,
                h: newh,
                screen: final(self).screen,
                ..*old(self)
            }),
    {
        proof {
            assert(neww as nat * (newh as nat + 1) <= 0xffff * 0x10000) by (nonlinear_arith)
                requires
                    neww <= 0xffff,
                    newh <= 0xffff,
            ;
        }
        let size: usize = neww as usize * (newh as usize + 1);
        if self.w != neww || self.h != newh || self.screen.len() != size {
            let mut grid: Vec<char> = Vec::new();
            let mut i: usize = 0;
            while i < size
                invariant
                    i <= size,
                    grid@.len() == i,
                    forall|j: int| 0 <= j < i ==> grid@[j] == ' ',
                decreases size - i,
            {
                grid.push(' ');
                i = i + 1;
            }
            self.screen = grid;
        } else {
            let ghost snap0 = *self;
            let mut i: usize = 0;
            while i < size
                invariant
                    i <= size,
                    self.screen@.len() == size,
                    forall|j: int| 0 <= j < i ==> self.screen@[j] == ' ',
                    *self == (Counter { screen: self.screen, ..snap0 }),
                decreases size - i,
            {
                self.screen.set(i, ' ');
                i = i + 1;
            }
        }
        self.w = neww;
        self.h = newh;
        let ghost vals = self.values@;
        let ghost gspan = spec_span(*old(self), *conf);
        let ghost gbase = spec_base(*old(self), *conf);
        if self.values.len() == 0 {
            proof {
                lemma_blank_grid(self.screen@, vals, gspan, gbase, neww as int, newh as int, *conf);
            }
            return;
        }
        let span_base: (u64, u64) = if self.auto_scale {
            if conf.scale_max {
                (self.max, 0)
            } else {
                (self.gmax - self.gmin, self.gmin)
            }
        } else {
            (self.scale_to, 0)
        };
        let span = span_base.0;
        let base = span_base.1;
        proof {
            assert(span as int == gspan);
            assert(base as int == gbase);
        }
        if span == 0 {
            proof {
                lemma_blank_grid(self.screen@, vals, gspan, gbase, neww as int, newh as int, *conf);
            }
            return;
        }
        let l = self.values.len();
        let maxw = neww as usize;
        let n: usize = if l <= maxw {
            l
        } else {
            maxw
        };
        let start: usize = maxw - n;
        let ghost snap = *self;
        let mut j: usize = 0;
        while j < size
            invariant
                j <= size,
                *self == (Counter { screen: self.screen, ..snap }),
                self.screen@.len() == size,
                size == neww as nat * (newh as nat + 1),
                l == vals.len(),
                1 <= l,
                vals == self.values@,
                1 <= span,
                span as int == gspan,
                base as int == gbase,
                maxw == neww as usize,
                n == (if l <= maxw {
                    l as int
                } else {
                    maxw as int
                }),
                start == maxw - n,
                forall|j2: int|
                    0 <= j2 < j ==> self.screen@[j2] == spec_cell(
                        vals,
                        gspan,
                        gbase,
                        neww as int,
                        newh as int,
                        *conf,
                        j2 % (neww as int),
                        j2 / (neww as int),
                    ),
                forall|j2: int| j <= j2 < size ==> self.screen@[j2] == ' ',
            decreases size - j,
        {
            proof {
                assert(neww >= 1) by (nonlinear_arith)
                    requires
                        (neww as nat * (newh as nat + 1)) > 0,
                ;
                vstd::arithmetic::div_mod::lemma_fundamental_div_mod(j as int, neww as int);
                assert((j as int / neww as int) <= newh as int) by (nonlinear_arith)
                    requires
                        j as int == neww as int * (j as int / neww as int) + j as int % (
                        neww as int),
                        0 <= j as int % (neww as int),
                        (j as int) < neww as int * (newh as int + 1),
                        neww >= 1,
                ;
            }
            let x: usize = j % maxw;
            let y: usize = j / maxw;
            let c: char = if x < start {
                ' '
            } else {
                let v = self.values[l - n + (x - start)];
                let p: u64 = if x == start {
                    u64::MAX
                } else {
                    self.values[l - n + (x - start) - 1]
                };
                cell_char(v, p, span, base, newh, conf, y as u16)
            };
            self.screen.set(j, c);
            j = j + 1;
        }
        proof {
            assert forall|x: int, y: int| 0 <= x < neww && 0 <= y <= newh implies self.screen@[y
                * neww + x] == spec_cell(
                vals,
                gspan,
                gbase,
                neww as int,
                newh as int,
                *conf,
                x,
                y,
            ) by {
                assert(y * neww + x < size && 0 <= y * neww + x) by (nonlinear_arith)
                    requires
                        0 <= x < neww as int,
                        0 <= y <= newh as int,
                        size == neww as nat * (newh as nat + 1),
                ;
                vstd::arithmetic::div_mod::lemma_fundamental_div_mod_converse(
                    y * (neww as int) + x,
                    neww as int,
                    y,
                    x,
                );
            }
        }
    }
}

/// On a blank grid every cell already equals the prescribed one when there
/// is nothing to draw.
proof fn lemma_blank_grid(
    screen: Seq<char>,
    vals: Seq<u64>,
    span: int,
    base: int,
    w: int,
    h: int,
    conf: Config,
)
    requires
        vals.len() == 0 || span <= 0,
        screen.len() == w * (h + 1),
        forall|j: int| 0 <= j < screen.len() ==> screen[j] == ' ',
    ensures
        forall|x: int, y: int|
            0 <= x < w && 0 <= y <= h ==> screen[y * w + x] == spec_cell(
                vals,
                span,
                base,
                w,
                h,
                conf,
                x,
                y,
            ),
{
    assert forall|x: int, y: int| 0 <= x < w && 0 <= y <= h implies screen[y * w + x] == spec_cell(
        vals,
        span,
        base,
        w,
        h,
        conf,
        x,
        y,
    ) by {
        assert(0 <= y * w + x && y * w + x < w * (h + 1)) by (nonlinear_arith)
            requires
                0 <= x < w,
                0 <= y <= h,
        ;
    }
}

impl Counter {
    /// One row of the rasterized grid as a string; row `h` is the trend row.
    pub fn screen_row(&self, row: u16) -> (r: String)
        requires
            row <= self.h,
            self.screen@.len() == self.w as nat * (self.h as nat + 1),
        ensures
            r@ == self.screen@.subrange(
                row as int * self.w as int,
                row as int * self.w as int + self.w as int,
            ),
    {
        proof {
            assert(row as nat * self.w as nat + self.w as nat <= self.w as nat * (self.h as nat
                + 1)) by (nonlinear_arith)
                requires
                    row as nat <= self.h as nat,
            ;
            assert(self.w as nat * (self.h as nat + 1) <= 0xffff * 0x10000) by (nonlinear_arith)
                requires
                    self.w <= 0xffff,
                    self.h <= 0xffff,
            ;
        }
        let w = self.w as usize;
        let st = row as usize * w;
        let mut s = String::new();
        let mut i: usize = 0;
        while i < w
            invariant
                i <= w,
                w == self.w as nat,
                st == row as int * self.w as int,
                st + w <= self.screen@.len(),
                st + w <= 0xffff0000,
                s@ == self.screen@.subrange(st as int, st as int + i as int),
            decreases w - i,
        {
            crate::ux::push_char(&mut s, self.screen[st + i]);
            proof {
                assert(self.screen@.subrange(st as int, st as int + i as int + 1)
                    =~= self.screen@.subrange(st as int, st as int + i as int).push(
                    self.screen@[st as int + i as int],
                ));
            }
            i = i + 1;
        }
        s
    }
}

/// The buffer contents after a whole sequence of `add` calls, each applied
/// as `spec_add_values` describes.
pub open spec fn fold_adds(init: Seq<u64>, cnt: nat, samples: Seq<u64>) -> Seq<u64>
    decreases samples.len(),
{
    if samples.len() == 0 {
        init
    } else {
        fold_adds(spec_add_values(init, cnt, samples[0]), cnt, samples.skip(1))
    }
}

proof fn lemma_fold_adds_general(buf: Seq<u64>, cnt: nat, samples: Seq<u64>)
    requires
        1 <= cnt,
        buf.len() <= cnt,
    ensures
        fold_adds(buf, cnt, samples) =~= (buf + samples).skip(
            if buf.len() + samples.len() >= cnt {
                buf.len() + samples.len() - cnt
            } else {
                0
            },
        ),
    decreases samples.len(),
{
    if samples.len() == 0 {
        assert(buf + samples =~= buf);
    } else {
        let buf2 = spec_add_values(buf, cnt, samples[0]);
        lemma_fold_adds_general(buf2, cnt, samples.skip(1));
        if buf.len() < cnt {
            assert(buf2 + samples.skip(1) =~= buf + samples);
        } else {
            assert(buf2 + samples.skip(1) =~= (buf + samples).skip(1));
        }
    }
}

/// Law: after at least `cnt` samples flow into an empty buffer of capacity
/// `cnt >= 1`, exactly the most recent `cnt` of them remain, in arrival
/// order.
pub proof fn lemma_bounded_history(cnt: nat, samples: Seq<u64>)
    requires
        1 <= cnt <= samples.len(),
    ensures
        fold_adds(Seq::<u64>::empty(), cnt, samples).len() == cnt,
        fold_adds(Seq::<u64>::empty(), cnt, samples) == samples.skip(samples.len() - cnt),
{
    lemma_fold_adds_general(Seq::<u64>::empty(), cnt, samples);
    assert(Seq::<u64>::empty() + samples =~= samples);
    assert(fold_adds(Seq::<u64>::empty(), cnt, samples) =~= samples.skip(samples.len() - cnt));
}

} // verus!
