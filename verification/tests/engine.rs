use mzk::engine::{advance, build_order, natural_order, position_of, repeat_word, seek_target, seek_to_frame, status_times, Repeat};

#[test]
fn advance_wraps_both_ways() {
    let mut p = 2usize;
    advance(&mut p, 3, Repeat::All, 1);
    assert_eq!(p, 0);
    advance(&mut p, 3, Repeat::Off, -1);
    assert_eq!(p, 2);
    advance(&mut p, 3, Repeat::One, 1);
    assert_eq!(p, 2);
    advance(&mut p, 0, Repeat::All, 1);
    assert_eq!(p, 2);
}

#[test]
fn next_then_prev_returns() {
    for n in 1..6usize {
        for start in 0..n {
            let mut p = start;
            advance(&mut p, n, Repeat::All, 1);
            assert!(p < n);
            advance(&mut p, n, Repeat::All, -1);
            assert_eq!(p, start);
        }
    }
}

#[test]
fn favourites_only_order() {
    let base = vec![3usize, 0, 2, 1];
    let favs = [false, true, false, true];
    assert_eq!(build_order(base.clone(), &favs, true), vec![3, 1]);
    assert_eq!(build_order(base.clone(), &favs, false), base);
    assert_eq!(build_order(base.clone(), &[false; 4], true), base);
    assert_eq!(natural_order(3), vec![0, 1, 2]);
}

#[test]
fn positions() {
    let order = vec![4usize, 2, 2, 7];
    assert_eq!(position_of(&order, 2), 1);
    assert_eq!(position_of(&order, 9), 0);
}

#[test]
fn seek_arithmetic() {
    assert_eq!(seek_target(44100, 15, 44100), 44100 * 16);
    assert_eq!(seek_target(44100, -15, 44100), 0);
    assert_eq!(seek_target(0, i64::MAX, 48000), i64::MAX as u64);
    assert_eq!(seek_to_frame(90, 48000), 90 * 48000);
    assert_eq!(seek_to_frame(u64::MAX, 2), u64::MAX);
}

#[test]
fn status_clock() {
    assert_eq!(status_times(44100 * 60, 44100, 2, 44100 * 2 * 30), (30, 60));
    assert_eq!(status_times(44100 * 60, 44100, 2, u64::MAX), (60, 60));
    assert_eq!(status_times(0, 0, 0, 5), (1, 0));
}

#[test]
fn repeat_words() {
    assert_eq!(repeat_word(Repeat::Off), "off");
    assert_eq!(repeat_word(Repeat::One), "one");
    assert_eq!(repeat_word(Repeat::All), "all");
}
