use pwatch::config::{Config, Detail, Graph, GraphPosition, Pack, TitleMode};
use pwatch::layout::{Layout, ProcSample, Scroll};
use pwatch::panel::Process;

fn sample(pid: u64, cpu: u64, mem: u64) -> ProcSample {
    ProcSample {
        pid,
        cpu,
        mem,
        io_r_total: 0,
        io_w_total: 0,
        io_r_delta: 0,
        io_w_delta: 0,
        cmd: format!("cmd{}", pid),
        exe: format!("/bin/p{}", pid),
        title: format!("p{}", pid),
    }
}

#[test]
fn page_never_overflows() {
    let cfg = Config::default();
    // Three panels in forty rows: stacked panels would need 42 rows, so the
    // packer goes side-by-side and grows the panels to fill the screen.
    assert_eq!(cfg.packer(3, 40), Pack::Side);
    let gh = cfg.graph_height(3, 40);
    assert_eq!(gh, 13);
    let vis = cfg.visible_count(3, 40);
    assert_eq!(vis, 3);
    assert!(vis <= 3);
    assert!(vis as u32 * gh as u32 <= 40);

    // Ten panels in forty rows: only a page of five fits, and a sixth
    // panel would overflow.
    let gh = cfg.graph_height(10, 40);
    assert_eq!(gh, 8);
    let vis = cfg.visible_count(10, 40);
    assert_eq!(vis, 5);
    assert!(vis < 10);
    assert!(vis as u32 * gh as u32 <= 40);
    assert!((vis as u32 + 1) * gh as u32 > 40);
}

#[test]
fn packer_modes() {
    let mut cfg = Config::default();
    // Two panels fit stacked in forty rows.
    assert_eq!(cfg.packer(2, 40), Pack::Line);
    cfg.graph_pos = GraphPosition::Sided;
    assert_eq!(cfg.packer(2, 40), Pack::Side);
    cfg.graph_pos = GraphPosition::Top;
    assert_eq!(cfg.packer(100, 40), Pack::Line);
}

#[test]
fn config_switches() {
    let mut cfg = Config::default();
    cfg.switch_quality();
    assert_eq!(cfg.detail, Detail::Medium);
    cfg.switch_quality();
    assert_eq!(cfg.detail, Detail::Low);
    cfg.switch_quality();
    assert_eq!(cfg.detail, Detail::High);
    cfg.switch_graphs();
    assert_eq!(cfg.graphs, Graph::Mem);
    cfg.switch_title_type();
    assert_eq!(cfg.title_mode, TitleMode::Exe);
}

#[test]
fn merge_creates_sorts_and_kills() {
    let cfg = Config::default();
    let mut lay = Layout::new(cfg, 80, 41);
    let samples = vec![sample(1, 10, 100), sample(2, 20, 200), sample(3, 30, 300)];
    lay.update_procs(&samples, 1000);
    assert_eq!(lay.procs.len(), 3);
    // live panels sort by descending pid
    assert_eq!(lay.procs[0].pid, 3);
    assert_eq!(lay.procs[1].pid, 2);
    assert_eq!(lay.procs[2].pid, 1);
    // the first CPU reading is recorded as zero
    assert_eq!(lay.procs[0].cpu.values, vec![0u64]);
    assert_eq!(lay.procs[0].mem.values, vec![300u64]);

    // process 2 vanishes: it dies, is stamped, and drops to the bottom
    let samples2 = vec![sample(1, 11, 110), sample(3, 31, 310)];
    lay.update_procs(&samples2, 2000);
    assert_eq!(lay.procs.len(), 3);
    assert_eq!(lay.procs[2].pid, 2);
    assert!(lay.procs[2].dead);
    assert_eq!(lay.procs[2].dead_since, Some(2000));
    assert!(!lay.procs[0].dead);
    assert!(!lay.procs[1].dead);
    // the second CPU reading is kept as given
    assert_eq!(lay.procs[0].cpu.values, vec![0u64, 31]);
    assert_eq!(lay.procs[0].mem.values, vec![300u64, 310]);

    // a later merge must not stamp the dead panel again
    let samples3 = vec![sample(1, 12, 120), sample(3, 32, 320)];
    lay.update_procs(&samples3, 3000);
    assert_eq!(lay.procs[2].dead_since, Some(2000));
}

#[test]
fn dead_panels_sort_last() {
    let a = Process::new(5, String::new(), String::new(), String::new());
    let mut b = Process::new(9, String::new(), String::new(), String::new());
    b.dead = true;
    b.dead_since = Some(7);
    assert_eq!(a.order(&b), std::cmp::Ordering::Less);
    assert_eq!(b.order(&a), std::cmp::Ordering::Greater);
    // two dead panels compare equal: the tie-break never separates them
    let mut c = Process::new(1, String::new(), String::new(), String::new());
    c.dead = true;
    c.dead_since = Some(9999);
    assert_eq!(b.order(&c), std::cmp::Ordering::Equal);
    assert_eq!(c.order(&b), std::cmp::Ordering::Equal);
}

#[test]
fn place_assigns_rectangles() {
    let cfg = Config::default();
    let mut lay = Layout::new(cfg, 80, 41);
    let mut samples = Vec::new();
    for pid in 1..=10u64 {
        samples.push(sample(pid, 1, 10));
    }
    lay.update_procs(&samples, 1);
    lay.place();
    // five visible panels of height eight, full width, the rest hidden
    for i in 0..5usize {
        assert_eq!(lay.procs[i].w, 80);
        assert_eq!(lay.procs[i].h, 8);
        assert_eq!(lay.procs[i].y, (i as u16) * 8 + 1);
        assert!(lay.procs[i].sided);
    }
    for i in 5..10usize {
        assert_eq!(lay.procs[i].w, 0);
    }
    let (t, h, d) = lay.proc_totals();
    assert_eq!((t, h, d), (10, 5, 0));
}

#[test]
fn scroll_window_clamps() {
    let cfg = Config::default();
    let mut lay = Layout::new(cfg, 80, 41);
    let mut samples = Vec::new();
    for pid in 1..=10u64 {
        samples.push(sample(pid, 1, 10));
    }
    lay.update_procs(&samples, 1);
    lay.place();
    // ten panels, five shown, five hidden: top stays in [0, 5]
    assert!(!lay.scroll(Scroll::Home));
    assert!(lay.scroll(Scroll::End));
    assert_eq!(lay.top_item, 5);
    assert!(lay.scroll(Scroll::Up(100000)));
    assert_eq!(lay.top_item, 0);
    for step in 1..=5usize {
        assert!(lay.scroll(Scroll::Down(1)));
        assert_eq!(lay.top_item, step);
    }
    assert!(!lay.scroll(Scroll::Down(1)));
    assert_eq!(lay.top_item, 5);
    assert!(!lay.scroll(Scroll::Down(100)));
    assert_eq!(lay.top_item, 5);
}

#[test]
fn scroll_noop_when_everything_visible() {
    let cfg = Config::default();
    let mut lay = Layout::new(cfg, 80, 41);
    let samples = vec![sample(1, 1, 10), sample(2, 2, 20)];
    lay.update_procs(&samples, 1);
    lay.place();
    assert!(!lay.scroll(Scroll::Down(1)));
    assert!(!lay.scroll(Scroll::End));
    assert!(!lay.scroll(Scroll::Home));
    assert_eq!(lay.top_item, 0);
}

#[test]
fn remove_dead_panels() {
    let cfg = Config::default();
    let mut lay = Layout::new(cfg, 80, 41);
    let samples = vec![sample(1, 1, 10), sample(2, 2, 20), sample(3, 3, 30)];
    lay.update_procs(&samples, 1);
    assert!(!lay.remove_dead());
    let samples2 = vec![sample(2, 2, 21)];
    lay.update_procs(&samples2, 2);
    assert_eq!(lay.procs.len(), 3);
    assert!(lay.remove_dead());
    assert_eq!(lay.procs.len(), 1);
    assert_eq!(lay.procs[0].pid, 2);
}

#[test]
fn description_fallbacks() {
    let p = Process::new(
        1,
        "the command".to_string(),
        "/bin/exe".to_string(),
        "title".to_string(),
    );
    assert_eq!(p.description(TitleMode::Cmd).as_str(), "the command");
    assert_eq!(p.description(TitleMode::Exe).as_str(), "/bin/exe");
    assert_eq!(p.description(TitleMode::Title).as_str(), "title");
    let p = Process::new(2, "cmd only".to_string(), String::new(), String::new());
    assert_eq!(p.description(TitleMode::Title).as_str(), "cmd only");
    let p = Process::new(3, String::new(), "/bin/x".to_string(), String::new());
    assert_eq!(p.description(TitleMode::Cmd).as_str(), "/bin/x");
}

#[test]
fn dim_sets_capacities() {
    let mut p = Process::new(1, String::new(), String::new(), String::new());
    p.dim(0, 1, 80, 13, true);
    assert_eq!(p.cpu.display_cnt, 34);
    assert_eq!(p.mem.display_cnt, 39);
    p.dim(0, 1, 80, 13, false);
    assert_eq!(p.cpu.display_cnt, 74);
    assert_eq!(p.mem.display_cnt, 73);
    let old_cpu_cnt = p.cpu.display_cnt;
    p.dim(0, 0, 0, 0, false);
    assert_eq!(p.w, 0);
    assert_eq!(p.cpu.display_cnt, old_cpu_cnt);
}

#[test]
fn mark_toggles_together() {
    let cfg = Config::default();
    let mut lay = Layout::new(cfg, 80, 41);
    let samples = vec![sample(1, 1, 10)];
    lay.update_procs(&samples, 1);
    lay.toggle_mark(500);
    assert_eq!(lay.mark_since, Some(500));
    assert_eq!(lay.procs[0].mem.mark_value, Some(10));
    assert_eq!(lay.procs[0].mark_r_io, Some(0));
    assert_eq!(lay.procs[0].mark_w_io, Some(0));
    lay.toggle_mark(600);
    assert_eq!(lay.mark_since, None);
    assert_eq!(lay.procs[0].mem.mark_value, None);
    assert_eq!(lay.procs[0].mark_r_io, None);
}

#[test]
fn totals_ratio() {
    let cfg = Config::default();
    let mut lay = Layout::new(cfg, 80, 41);
    lay.set_totals(37, 2048, 8192);
    assert_eq!(lay.cpu_usage, 37);
    assert_eq!(lay.mem_usage, 25);
}
