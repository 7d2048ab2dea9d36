//! Display configuration and the layout arithmetic driven by it: per-panel
//! minimum heights, the stacked-versus-side-by-side packing decision, height
//! distribution and the visible page size.

use vstd::prelude::*;

verus! {

/// Rows of one graph body, the minimum usable drawing area.
pub const GRAPH_AREA: u16 = 5;

/// How the CPU and memory graphs of one process share its panel.
#[derive(Clone, Copy, PartialEq, Eq, Structural, Debug)]
pub enum Pack {
    /// Each graph takes the whole panel width, one above the other.
    Line,
    /// CPU takes the left half, memory the right half.
    Side,
}

/// Graph glyph granularity: how many distinct partial-fill characters are
/// drawn.
#[derive(Clone, Copy, PartialEq, Eq, Structural, Debug)]
pub enum Detail {
    /// Only full and empty blocks.
    Low,
    /// Full, half-full, and empty blocks.
    Medium,
    /// Nine blocks from empty to full in eighth steps.
    High,
}

/// Which text field names a process in its panel header.
#[derive(Clone, Copy, PartialEq, Eq, Structural, Debug)]
pub enum TitleMode {
    Cmd,
    Exe,
    Title,
}

/// Which resource graphs are shown.
#[derive(Clone, Copy, PartialEq, Eq, Structural, Debug)]
pub enum Graph {
    All,
    Mem,
    Cpu,
}

/// Preference for the packing decision.
#[derive(Clone, Copy, PartialEq, Eq, Structural, Debug)]
pub enum GraphPosition {
    /// Stack when everything still fits, else go side-by-side.
    Auto,
    /// Always side-by-side.
    Sided,
    /// Always stacked.
    Top,
}

/// Read-only per-cycle display configuration.
#[derive(Clone, Copy)]
pub struct Config {
    /// Glyph granularity of the graphs.
    pub detail: Detail,
    /// Memory axis mode: `true` scales from zero to the all-time maximum,
    /// `false` from the visible window's minimum to its maximum.
    pub scale_max: bool,
    /// Refresh interval in milliseconds; clamped by the surrounding program.
    pub freq: u64,
    /// Which text field names a process.
    pub title_mode: TitleMode,
    /// Which graphs are shown.
    pub graphs: Graph,
    /// Packing preference.
    pub graph_pos: GraphPosition,
}

impl Default for Config {
    /// High detail, window-relative memory scaling, one-second refresh,
    /// command-line titles, both graphs, automatic packing.
    fn default() -> (c: Config)
        ensures
            c.detail == Detail::High,
            c.scale_max == false,
            c.freq == 1000,
            c.title_mode == TitleMode::Cmd,
            c.graphs == Graph::All,
            c.graph_pos == GraphPosition::Auto,
    {
        Config {
            detail: Detail::High,
            scale_max: false,
            freq: 1000,
            title_mode: TitleMode::Cmd,
            graphs: Graph::All,
            graph_pos: GraphPosition::Auto,
        }
    }
}

/// The number of non-empty glyphs a detail level offers.
pub open spec fn spec_steps(d: Detail) -> u16 {
    match d {
        Detail::Low => 1,
        Detail::Medium => 2,
        Detail::High => 8,
    }
}

/// The shortest panel that still shows everything the configuration asks
/// for: two stacked graph bodies with their header rows, or one.
pub open spec fn spec_min_graph_height(c: Config) -> u16 {
    if c.graph_pos == GraphPosition::Top && c.graphs == Graph::All {
        (2 * GRAPH_AREA + 4) as u16
    } else {
        (GRAPH_AREA + 3) as u16
    }
}

/// The tallest panel form the configuration can use.
pub open spec fn spec_max_graph_height(c: Config) -> u16 {
    if c.graph_pos == GraphPosition::Sided || c.graphs != Graph::All {
        (GRAPH_AREA + 3) as u16
    } else {
        (2 * GRAPH_AREA + 4) as u16
    }
}

/// The packing decision for `n` panels in `h` drawing rows: forced modes
/// win; otherwise stack exactly when every panel still fits at the taller
/// stacked height.
pub open spec fn spec_packer(c: Config, n: nat, h: nat) -> Pack {
    match c.graph_pos {
        GraphPosition::Sided => Pack::Side,
        GraphPosition::Top => Pack::Line,
        GraphPosition::Auto => {
            if spec_max_graph_height(c) * n <= h {
                Pack::Line
            } else {
                Pack::Side
            }
        },
    }
}

/// The height of every panel: the chosen mode's base height, plus an even
/// share of the leftover rows when all `n` panels fit below `h`.
pub open spec fn spec_graph_height(c: Config, n: nat, h: nat) -> nat {
    let base = if spec_packer(c, n, h) == Pack::Line {
        spec_max_graph_height(c) as nat
    } else {
        spec_min_graph_height(c) as nat
    };
    if n == 0 {
        base
    } else {
        let ph = base * n;
        if ph < h {
            base + ((h - ph) as nat) / n
        } else {
            base
        }
    }
}

/// How many panels are visible at once: a full page, capped at `n`.
pub open spec fn spec_visible_count(c: Config, n: nat, h: nat) -> nat {
    let vis = h / spec_graph_height(c, n, h);
    if vis < n {
        vis
    } else {
        n
    }
}

impl Config {
    /// The number of non-empty glyphs the detail level offers.
    pub fn steps(&self) -> (r: u16)
        ensures
            r == spec_steps(self.detail),
    {
        match self.detail {
            Detail::Low => 1,
            Detail::Medium => 2,
            Detail::High => 8,
        }
    }

    /// Rotates the title field preference.
    pub fn switch_title_type(&mut self)
        ensures
            final(self).title_mode == (match old(self).title_mode {
                TitleMode::Cmd => TitleMode::Exe,
                TitleMode::Exe => TitleMode::Title,
                TitleMode::Title => TitleMode::Cmd,
            }),
            *final(self) == (Config { title_mode: final(self).title_mode, ..*old(self) }),
    {
        let old_mode = self.title_mode;
        self.title_mode = match old_mode {
            TitleMode::Cmd => TitleMode::Exe,
            TitleMode::Exe => TitleMode::Title,
            TitleMode::Title => TitleMode::Cmd,
        };
    }

    /// Rotates the glyph granularity downwards, wrapping back to high.
    pub fn switch_quality(&mut self)
        ensures
            final(self).detail == (match old(self).detail {
                Detail::High => Detail::Medium,
                Detail::Medium => Detail::Low,
                Detail::Low => Detail::High,
            }),
            *final(self) == (Config { detail: final(self).detail, ..*old(self) }),
    {
        let old_detail = self.detail;
        self.detail = match old_detail {
            Detail::High => Detail::Medium,
            Detail::Medium => Detail::Low,
            Detail::Low => Detail::High,
        };
    }

    /// Rotates which graphs are shown.
    pub fn switch_graphs(&mut self)
        ensures
            final(self).graphs == (match old(self).graphs {
                Graph::All => Graph::Mem,
                Graph::Mem => Graph::Cpu,
                Graph::Cpu => Graph::All,
            }),
            *final(self) == (Config { graphs: final(self).graphs, ..*old(self) }),
    {
        let old_graphs = self.graphs;
        self.graphs = match old_graphs {
            Graph::All => Graph::Mem,
            Graph::Mem => Graph::Cpu,
            Graph::Cpu => Graph::All,
        };
    }

    /// The shortest panel that still shows everything asked for.
    pub fn min_graph_height(&self) -> (r: u16)
        ensures
            r == spec_min_graph_height(*self),
    {
        if self.graph_pos == GraphPosition::Top && self.graphs == Graph::All {
            GRAPH_AREA * 2 + 2 + 2
        } else {
            GRAPH_AREA + 1 + 1 + 1
        }
    }

    /// The tallest panel form the configuration can use.
    pub fn max_graph_height(&self) -> (r: u16)
        ensures
            r == spec_max_graph_height(*self),
    {
        if self.graph_pos == GraphPosition::Sided || self.graphs != Graph::All {
            GRAPH_AREA + 1 + 1 + 1
        } else {
            GRAPH_AREA * 2 + 2 + 2
        }
    }

    /// Decides between stacked and side-by-side packing.
    pub fn packer(&self, proc_count: usize, height: u16) -> (r: Pack)
        ensures
            r == spec_packer(*self, proc_count as nat, height as nat),
    {
        match self.graph_pos {
            GraphPosition::Sided => Pack::Side,
            GraphPosition::Top => Pack::Line,
            GraphPosition::Auto => {
                let max = self.max_graph_height();
                let fits: bool = if proc_count <= usize::MAX / 16 {
                    proof {
                        assert(max as nat * proc_count as nat <= usize::MAX) by (nonlinear_arith)
                            requires
                                max <= 14,
                                proc_count <= usize::MAX / 16,
                        ;
                    }
                    max as usize * proc_count <= height as usize
                } else {
                    false
                };
                if fits {
                    Pack::Line
                } else {
                    proof {
                        if proc_count > usize::MAX / 16 {
                            assert(spec_max_graph_height(*self) * proc_count as nat
                                > height as nat) by (nonlinear_arith)
                                requires
                                    spec_max_graph_height(*self) >= 8,
                                    proc_count > usize::MAX / 16,
                                    height <= u16::MAX,
                            ;
                        }
                    }
                    Pack::Side
                }
            },
        }
    }

    /// The height every panel gets at the current count and terminal size.
    pub fn graph_height(&self, proc_count: usize, height: u16) -> (r: u16)
        ensures
            r as nat == spec_graph_height(*self, proc_count as nat, height as nat),
            r >= 8,
    {
        let pack = self.packer(proc_count, height);
        let h: u16 = if pack == Pack::Line {
            self.max_graph_height()
        } else {
            self.min_graph_height()
        };
        if proc_count == 0 {
            return h;
        }
        if proc_count <= height as usize {
            proof {
                assert(h as nat * proc_count as nat <= 0xffff * 0xffff) by (nonlinear_arith)
                    requires
                        h <= 0xffff,
                        proc_count <= 0xffff,
                ;
            }
            let ph = h as usize * proc_count;
            if ph < height as usize {
                let diff = height as usize - ph;
                let extra = diff / proc_count;
                proof {
                    vstd::arithmetic::div_mod::lemma_fundamental_div_mod(diff as int, proc_count as int);
                    assert(h as nat + extra as nat <= height as nat) by (nonlinear_arith)
                        requires
                            diff == height - h as nat * proc_count as nat,
                            extra == diff as nat / proc_count as nat,
                            diff as int == proc_count as int * (diff as int / proc_count as int)
                                + diff as int % proc_count as int,
                            0 <= diff as int % proc_count as int,
                            proc_count >= 1,
                    ;
                }
                return h + extra as u16;
            }
        } else {
            proof {
                assert(h as nat * proc_count as nat >= height as nat) by (nonlinear_arith)
                    requires
                        h >= 8,
                        proc_count > height as nat,
                ;
            }
        }
        h
    }

    /// How many panels are visible at once.
    pub fn visible_count(&self, proc_count: usize, height: u16) -> (r: usize)
        ensures
            r as nat == spec_visible_count(*self, proc_count as nat, height as nat),
    {
        let h = self.graph_height(proc_count, height);
        let vis = (height / h) as usize;
        if vis < proc_count {
            vis
        } else {
            proc_count
        }
    }
}

/// No page overflows: at most `n` panels are visible, the visible page never
/// exceeds the drawing height, and when panels are hidden, one more panel
/// would not have fit.
pub proof fn lemma_page_fits(c: Config, n: nat, h: nat)
    ensures
        spec_visible_count(c, n, h) <= n,
        spec_visible_count(c, n, h) * spec_graph_height(c, n, h) <= h,
        spec_visible_count(c, n, h) < n ==> (spec_visible_count(c, n, h) + 1) * spec_graph_height(
            c,
            n,
            h,
        ) > h,
{
    let gh = spec_graph_height(c, n, h);
    let vis = spec_visible_count(c, n, h);
    assert(gh >= 8);
    vstd::arithmetic::div_mod::lemma_fundamental_div_mod(h as int, gh as int);
    assert((h / gh) * gh <= h && ((h / gh + 1) * gh) > h) by (nonlinear_arith)
        requires
            gh >= 1,
            h as int == gh as int * (h as int / gh as int) + h as int % gh as int,
            0 <= h as int % gh as int && (h as int % gh as int) < gh as int,
    ;
    if vis < h / gh {
        assert(vis * gh <= (h / gh) * gh) by (nonlinear_arith)
            requires
                vis <= h / gh,
                gh >= 1,
        ;
    }
}

} // verus!
