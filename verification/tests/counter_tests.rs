use pwatch::config::{Config, Detail};
use pwatch::counter::{char_for_value, Counter};

#[test]
fn idx_low() {
    let cfg = Config {
        detail: Detail::Low,
        ..Config::default()
    };
    let vals: [char; 8] = [
        ' ', ' ', ' ', ' ', '\u{2588}', '\u{2588}', '\u{2588}', '\u{2588}',
    ];
    for idx in 0u64..8u64 {
        let c = char_for_value(idx, 8, &cfg);
        let r = vals[idx as usize];
        assert_eq!(r, c);
    }
}

#[test]
fn idx_med() {
    let cfg = Config {
        detail: Detail::Medium,
        ..Config::default()
    };
    let vals: [char; 8] = [
        ' ', ' ', ' ', '\u{2584}', '\u{2584}', '\u{2584}', '\u{2588}', '\u{2588}',
    ];
    for idx in 0u64..8u64 {
        let c = char_for_value(idx, 8, &cfg);
        let r = vals[idx as usize];
        assert_eq!(r, c);
    }
}

#[test]
fn idx_high() {
    let cfg = Config {
        detail: Detail::High,
        ..Config::default()
    };
    let vals: [char; 8] = [
        ' ', '\u{2581}', '\u{2582}', '\u{2583}', '\u{2584}', '\u{2585}', '\u{2586}', '\u{2587}',
    ];
    for idx in 0u64..8u64 {
        let c = char_for_value(idx, 8, &cfg);
        let r = vals[idx as usize];
        assert_eq!(r, c);
    }

    let vals: [char; 14] = [
        ' ', ' ', '\u{2581}', '\u{2581}', '\u{2582}', '\u{2583}', '\u{2583}', '\u{2584}',
        '\u{2585}', '\u{2585}', '\u{2586}', '\u{2587}', '\u{2587}', '\u{2588}',
    ];
    for idx in 0u64..14 {
        let c = char_for_value(idx, 14, &cfg);
        let r = vals[idx as usize];
        assert_eq!(r, c);
    }
}

#[test]
fn full_cell_glyph() {
    // A fraction at or above one fills the cell at every detail level.
    for detail in [Detail::Low, Detail::Medium, Detail::High] {
        let cfg = Config {
            detail,
            ..Config::default()
        };
        assert_eq!(char_for_value(8, 8, &cfg), '\u{2588}');
        assert_eq!(char_for_value(9, 8, &cfg), '\u{2588}');
    }
}

#[test]
fn rolling_window() {
    // Capacity three: only the three most recent samples remain, in order.
    let mut c = Counter::default();
    c.display_cnt = 3;
    for v in 1u64..=5u64 {
        c.add(v);
    }
    assert_eq!(c.values, vec![3u64, 4, 5]);
    assert_eq!(c.max, 5);
    assert_eq!(c.last(), 5);
}

#[test]
fn add_rederives_fixed_scale() {
    let mut c = Counter::default();
    c.scale_to = 100;
    c.add(155);
    assert_eq!(c.scale_to, 200);
    assert_eq!(c.max, 155);
}

#[test]
fn last_diff_and_mark() {
    let mut c = Counter::default();
    assert_eq!(c.last_diff(), 0);
    c.add(10);
    assert_eq!(c.last_diff(), 0);
    c.add(25);
    assert_eq!(c.last_diff(), 15);
    c.toggle_mark();
    assert_eq!(c.mark_value, Some(25));
    c.add(5);
    assert_eq!(c.last_diff(), -20);
    c.toggle_mark();
    assert_eq!(c.mark_value, None);
    assert_eq!(c.last_diff(), -20);
}

#[test]
fn max_window() {
    let mut c = Counter::default();
    c.add(7);
    c.add(90);
    c.add(4);
    c.add(6);
    assert_eq!(c.max_last_n(2), 6);
    assert_eq!(c.max_last_n(3), 90);
    assert_eq!(c.max_last_n(100), 90);
    assert_eq!(c.max_last_n(0), 0);
}

#[test]
fn reset_max_uses_window() {
    let mut c = Counter::default();
    c.scale_to = 100;
    c.w = 2;
    c.add(950);
    c.add(4);
    c.add(6);
    assert_eq!(c.max, 950);
    c.reset_max();
    assert_eq!(c.max, 6);
    assert_eq!(c.scale_to, 100);
    c.w = 0;
    c.reset_max();
    assert_eq!(c.max, 0);
    assert_eq!(c.scale_to, 100);
}

#[test]
fn range_rounding() {
    // One sample between two buckets: min rounds down, max rounds up.
    let mut c = Counter::default();
    c.auto_scale = true;
    c.add(1056);
    c.calculate_range();
    assert_eq!(c.gmin, 1024);
    assert_eq!(c.gmax, 2048);
}

#[test]
fn range_collapse_bumps_max() {
    // A sample on a bucket boundary rounds the same both ways, so the
    // upper bound is bumped by one bucket to keep the range non-empty.
    let mut c = Counter::default();
    c.auto_scale = true;
    c.add(2048);
    c.calculate_range();
    assert_eq!(c.gmin, 2048);
    assert_eq!(c.gmax, 3072);
    assert!(c.gmin < c.gmax);
}

#[test]
fn range_mixed_values() {
    let mut c = Counter::default();
    c.auto_scale = true;
    c.add(500);
    c.add(3000);
    c.calculate_range();
    assert_eq!(c.gmin, 500);
    assert_eq!(c.gmax, 3072);
}

#[test]
fn raster_partial_blocks() {
    // Fixed scale 100, graph height 5: one sample of 10 percent fills no
    // whole row (each row stands for 20) and leaves a mid-level glyph,
    // since the fraction is exactly one half.
    let cfg = Config::default();
    let mut c = Counter::default();
    c.scale_to = 100;
    c.add(10);
    c.update(4, 5, &cfg);
    assert_eq!(c.screen_row(0).as_str(), "    ");
    assert_eq!(c.screen_row(1).as_str(), "    ");
    assert_eq!(c.screen_row(2).as_str(), "    ");
    assert_eq!(c.screen_row(3).as_str(), "    ");
    assert_eq!(c.screen_row(4).as_str(), "   \u{2584}");
    assert_eq!(c.screen_row(5).as_str(), "    ");
}

#[test]
fn raster_full_and_partial_rows() {
    // 30 percent at height 5: one full row and a half-filled cell above it.
    let cfg = Config::default();
    let mut c = Counter::default();
    c.scale_to = 100;
    c.add(30);
    c.update(4, 5, &cfg);
    assert_eq!(c.screen_row(3).as_str(), "   \u{2584}");
    assert_eq!(c.screen_row(4).as_str(), "   \u{2588}");
}

#[test]
fn raster_trend_row() {
    let cfg = Config::default();
    let mut c = Counter::default();
    c.scale_to = 100;
    c.add(10);
    c.add(30);
    c.add(30);
    c.add(5);
    c.update(4, 5, &cfg);
    // first column has no predecessor; then rose, flat, fell
    assert_eq!(c.screen_row(5).as_str(), " + -");
}

#[test]
fn raster_top_clip() {
    // A sample at or above the ceiling fills the whole column.
    let cfg = Config::default();
    let mut c = Counter::default();
    c.scale_to = 100;
    c.add(100);
    c.update(2, 3, &cfg);
    assert_eq!(c.screen_row(0).as_str(), " \u{2588}");
    assert_eq!(c.screen_row(1).as_str(), " \u{2588}");
    assert_eq!(c.screen_row(2).as_str(), " \u{2588}");
}

#[test]
fn raster_zero_range_blank() {
    let cfg = Config::default();
    let mut c = Counter::default();
    c.add(50);
    c.update(3, 2, &cfg);
    assert_eq!(c.screen_row(0).as_str(), "   ");
    assert_eq!(c.screen_row(1).as_str(), "   ");
    assert_eq!(c.screen_row(2).as_str(), "   ");
}
