use mzk::repl_fmt::{dec_string, fmt_bar, fmt_label, fmt_rate, fmt_time, parse_clock, parse_u64, truncate};

#[test]
fn time() {
    assert_eq!(fmt_time(151), "2:31");
    assert_eq!(fmt_time(0), "0:00");
    assert_eq!(fmt_time(605), "10:05");
}

#[test]
fn bar() {
    let b = fmt_bar(151, 291, 10);
    assert_eq!(b.len(), 12);
    assert!(b.starts_with('['));
    assert!(b.ends_with(']'));
    assert_eq!(fmt_bar(10, 0, 10), "[----------]");
}

#[test]
fn bar_fill_is_proportional_and_capped() {
    assert_eq!(fmt_bar(151, 291, 10), "[#####-----]");
    assert_eq!(fmt_bar(500, 100, 4), "[####]");
    assert_eq!(fmt_bar(0, 100, 0), "[]");
}

#[test]
fn label_joins_extension() {
    assert_eq!(fmt_label("aurora", "flac"), "aurora.flac");
    assert_eq!(fmt_label("aurora", ""), "aurora");
}

#[test]
fn decimal_digits() {
    assert_eq!(dec_string(0), "0");
    assert_eq!(dec_string(1234567890), "1234567890");
    assert_eq!(dec_string(u64::MAX), "18446744073709551615");
}

#[test]
fn numbers_parse_as_std_does() {
    assert_eq!(parse_u64("90"), Some(90));
    assert_eq!(parse_u64("+15"), Some(15));
    assert_eq!(parse_u64(""), None);
    assert_eq!(parse_u64("+"), None);
    assert_eq!(parse_u64("-1"), None);
    assert_eq!(parse_u64("1x"), None);
    assert_eq!(parse_u64("18446744073709551615"), Some(u64::MAX));
    assert_eq!(parse_u64("18446744073709551616"), None);
}

#[test]
fn clock_times() {
    assert_eq!(parse_clock("1:30"), Some(90));
    assert_eq!(parse_clock("90"), Some(90));
    assert_eq!(parse_clock(":30"), None);
    assert_eq!(parse_clock("1:x"), None);
    assert_eq!(parse_clock("0:0:1"), None);
}

#[test]
fn truncation_keeps_a_prefix() {
    assert_eq!(truncate("héllo", 2), "hé");
    assert_eq!(truncate("ab", 10), "ab");
}

#[test]
fn rate() {
    assert_eq!(fmt_rate(48000), "48k");
    assert_eq!(fmt_rate(44100), "44.1k");
    assert_eq!(fmt_rate(16000), "16k");
}

#[test]
fn rate_matches_float_formatting() {
    let mut r: u32 = 1;
    while r < 400_000 {
        let want = if r % 1000 == 0 {
            format!("{}k", r / 1000)
        } else {
            format!("{:.1}k", r as f64 / 1000.0)
        };
        assert_eq!(fmt_rate(r), want, "rate {r}");
        r += if r < 3000 { 1 } else { 7 };
    }
    for r in [22050u32, 11025, 44950, 8050, 50, 150, 4_294_967_295, 4_294_967_250, 1_000_050] {
        assert_eq!(fmt_rate(r), format!("{:.1}k", r as f64 / 1000.0), "rate {r}");
    }
}

#[test]
fn clock_text_reads_back() {
    for secs in [0u64, 9, 59, 60, 151, 605, 3599, 86399, u64::MAX] {
        assert_eq!(parse_clock(&fmt_time(secs)), Some(secs));
    }
}
