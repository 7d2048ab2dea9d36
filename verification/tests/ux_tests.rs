use pwatch::ux::{
    fade_str_left, format_bytes, format_diff, format_duration, format_mem, round_to_hundred,
    short_round,
};

#[test]
fn fade_left() {
    let s = fade_str_left("", 10);
    assert_eq!("".to_string(), s);
    let s = fade_str_left("a", 10);
    assert_eq!("a".to_string(), s);
    let s = fade_str_left("abc", 1);
    assert_eq!("\u{2026}".to_string(), s);
    let s = fade_str_left("tha\u{f1}ispa", 3);
    assert_eq!("\u{2026}pa".to_string(), s);
    let s = fade_str_left("tha\u{f1}ispa", 6);
    assert_eq!("\u{2026}\u{f1}ispa".to_string(), s);
    let s = fade_str_left("tha\u{f1}ispa", 8);
    assert_eq!("tha\u{f1}ispa".to_string(), s);
}

#[test]
fn fade_left_wide_chars() {
    // Each of these characters is two columns wide, so only one fits
    // beside the ellipsis in three columns.
    let s = fade_str_left("\u{65e5}\u{672c}", 3);
    assert_eq!("\u{2026}\u{672c}".to_string(), s);
    let s = fade_str_left("\u{65e5}\u{672c}", 4);
    assert_eq!("\u{65e5}\u{672c}".to_string(), s);
}

#[test]
fn bytes_fmt() {
    let vals: [u64; 10] = [
        0,
        67,
        876,
        1_000,
        1_056,
        2_048,
        7_865,
        784_670,
        2_200_900,
        7_777_555_444_222_333,
    ];
    let ress: [&str; 10] = [
        "0K", "67K", "876K", "0.98M", "1.03M", "2.00M", "7.68M", "766M", "2.10G", "!!!!!",
    ];
    for idx in 0..10usize {
        let r = format_bytes(vals[idx]);
        assert_eq!(r.as_str(), ress[idx]);
    }
}

#[test]
fn duration_fmt() {
    let vals: [u64; 12] = [
        0, 23, 60, 176, 360, 7200, 7320, 7345, 345_600, 352_800, 352_860, 352_869,
    ];
    let ress: [&str; 12] = [
        "0s", "23s", "1m", "2m56s", "6m", "2h", "2h2m", "2h2m", "4d", "4d2h", "4d2h", "4d2h",
    ];
    for idx in 0..12usize {
        let r = format_duration(vals[idx]);
        assert_eq!(ress[idx], r.as_str());
    }
}

#[test]
fn round_100() {
    let vals: [u64; 5] = [0, 30, 110, 200, 399];
    let ress: [u64; 5] = [0, 100, 200, 200, 400];
    for (idx, v) in vals.iter().enumerate() {
        let r = round_to_hundred(*v);
        assert_eq!(r, ress[idx]);
    }
}

#[test]
fn diff_fmt() {
    let vals: [i64; 10] = [
        0,
        67,
        876,
        1_000,
        1_056,
        2_048,
        7_865,
        784_670,
        2_200_900,
        7_777_555_444_222_333,
    ];
    let resp: [&str; 10] = [
        "0K", "+67K", "+876K", "+1M", "+1M", "+2M", "+8M", "+766M", "+2G", "+!!!!",
    ];
    let resn: [&str; 10] = [
        "0K", "-67K", "-876K", "-1M", "-1M", "-2M", "-8M", "-766M", "-2G", "-!!!!",
    ];
    for idx in 0..10usize {
        let r = format_diff(vals[idx]);
        assert_eq!(r.as_str(), resp[idx]);
        let r = format_diff(-vals[idx]);
        assert_eq!(r.as_str(), resn[idx]);
    }
}

#[test]
fn short_round_test() {
    let vals: [u64; 9] = [0, 67, 876, 1_000, 1_056, 2_048, 7_865, 784_670, 2_200_900];
    let ress_v: [u64; 9] = [0, 67, 876, 1_000, 1, 2, 7, 766, 2];
    let ress_v1: [u64; 9] = [0, 67, 876, 1_000, 2, 2, 8, 767, 3];
    let ress_m: [u64; 9] = [1, 1, 1, 1, 1024, 1024, 1024, 1024, 1024 * 1024];
    for idx in 0..9usize {
        let (v, m) = short_round(vals[idx], true);
        let (v1, m1) = short_round(vals[idx], false);
        assert_eq!(v, ress_v[idx]);
        assert_eq!(m, ress_m[idx]);
        assert_eq!(v1, ress_v1[idx]);
        assert_eq!(m1, ress_m[idx]);
    }
}

#[test]
fn mem_fmt() {
    assert_eq!(format_mem(0).as_str(), "0K");
    assert_eq!(format_mem(1023).as_str(), "1023K");
    assert_eq!(format_mem(1024).as_str(), "1M");
    assert_eq!(format_mem(1536).as_str(), "1M");
    assert_eq!(format_mem(1024 * 1024).as_str(), "1G");
    assert_eq!(format_mem(5 * 1024 * 1024 * 1024).as_str(), "5T");
    assert_eq!(format_mem(u64::MAX).as_str(), "!!!!!");
}

#[test]
fn bytes_fmt_boundaries() {
    // 9728 KB is exactly 9.5M: the two-decimal form is no longer used.
    assert_eq!(format_bytes(9727).as_str(), "9.50M");
    assert_eq!(format_bytes(9728).as_str(), "9.5M");
    // an exact tie on the second decimal rounds to the even neighbour
    assert_eq!(format_bytes(1152).as_str(), "1.12M");
}

#[test]
fn duration_fmt_boundaries() {
    assert_eq!(format_duration(59).as_str(), "59s");
    assert_eq!(format_duration(60).as_str(), "1m");
    assert_eq!(format_duration(3599).as_str(), "59m59s");
    assert_eq!(format_duration(3600).as_str(), "1h");
    assert_eq!(format_duration(86399).as_str(), "23h59m");
    assert_eq!(format_duration(86400).as_str(), "1d");
}
