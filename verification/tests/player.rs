use mzk::engine::Repeat;
use mzk::player::{start, step, Action, Event, PlayerState};

fn player(n: usize, favs: &[usize], fav_only: bool, repeat: Repeat) -> (PlayerState, bool) {
    let is_fav: Vec<bool> = (0..n).map(|i| favs.contains(&i)).collect();
    let keys: Vec<usize> = (0..n).collect();
    start((0..n).collect(), is_fav, keys, false, fav_only, repeat, 800)
}

#[test]
fn player_starts_on_the_first_track() {
    let (s, warn) = player(3, &[], false, Repeat::All);
    assert!(!warn);
    assert_eq!((s.order.clone(), s.pos, s.paused, s.vol), (vec![0, 1, 2], 0, false, 800));
    let (s, warn) = player(3, &[], true, Repeat::All);
    assert!(warn);
    assert!(!s.fav_only);
    let (s, warn) = player(4, &[1, 3], true, Repeat::All);
    assert!(!warn);
    assert_eq!(s.order, vec![1, 3]);
}

#[test]
fn player_next_and_prev_wrap() {
    let (s, _) = player(3, &[], false, Repeat::All);
    let (s, a) = step(s, Event::Prev);
    assert_eq!(a, Action::Open { track: 2, flush: true });
    let (s, a) = step(s, Event::Next);
    assert_eq!(a, Action::Open { track: 0, flush: true });
    let (s, _) = step(s, Event::Repeat(Repeat::One));
    let (_, a) = step(s, Event::Next);
    assert_eq!(a, Action::Open { track: 0, flush: true });
}

#[test]
fn player_track_end() {
    let (s, _) = player(3, &[], false, Repeat::Off);
    let (s, a) = step(s, Event::TrackEnded);
    assert_eq!(a, Action::Open { track: 1, flush: false });
    assert!(s.has_track);
    let (s, _) = player(1, &[], false, Repeat::Off);
    let (s, a) = step(s, Event::TrackEnded);
    assert_eq!(a, Action::MarkEnded);
    assert!(!s.has_track);
    let (_, a) = step(s, Event::Seek(5));
    assert_eq!(a, Action::Nothing);
    let (s, _) = player(1, &[], false, Repeat::All);
    let (_, a) = step(s, Event::TrackEnded);
    assert_eq!(a, Action::Open { track: 0, flush: false });
}

#[test]
fn player_play_pause_and_volume() {
    let (s, _) = player(4, &[], false, Repeat::All);
    let (s, a) = step(s, Event::Pause);
    assert_eq!(a, Action::SetPaused(true));
    let (s, a) = step(s, Event::Play(2));
    assert_eq!(a, Action::Open { track: 2, flush: true });
    assert!(!s.paused);
    let (s, a) = step(s, Event::Play(9));
    assert_eq!(a, Action::Nothing);
    let (s, a) = step(s, Event::VolDelta(500));
    assert_eq!(a, Action::SetVolume(1000));
    let (s, a) = step(s, Event::Vol(-3));
    assert_eq!(a, Action::SetVolume(0));
    let (s, a) = step(s, Event::VolDelta(250));
    assert_eq!(a, Action::SetVolume(250));
    let (s, a) = step(s, Event::SeekTo(30));
    assert_eq!(a, Action::SeekTo(30));
    let (_, a) = step(s, Event::Quit);
    assert_eq!(a, Action::Quit);
}

#[test]
fn player_shuffle_keeps_the_current_track() {
    let (s, _) = player(4, &[], false, Repeat::All);
    let (s, _) = step(s, Event::Play(2));
    let (s, a) = step(s, Event::Shuffle(true, vec![3, 1, 0, 2]));
    assert_eq!(a, Action::Nothing);
    assert_eq!((s.order.clone(), s.pos, s.shuffle), (vec![3, 1, 0, 2], 3, true));
    let (s, _) = step(s, Event::Shuffle(false, vec![]));
    assert_eq!((s.order.clone(), s.pos, s.shuffle), (vec![0, 1, 2, 3], 2, false));
}

#[test]
fn player_favourites() {
    let (s, _) = player(4, &[], false, Repeat::All);
    let (s, a) = step(s, Event::ShuffleFavorites(vec![3, 2, 1, 0]));
    assert_eq!(a, Action::NoFavorites);
    let (s, _) = step(s, Event::Play(1));
    let (s, a) = step(s, Event::ToggleFavorite);
    assert_eq!(a, Action::SaveFavorites);
    assert_eq!(s.is_fav, vec![false, true, false, false]);
    let (s, a) = step(s, Event::ShuffleFavorites(vec![3, 2, 1, 0]));
    assert_eq!(a, Action::Nothing);
    assert_eq!((s.order.clone(), s.pos, s.fav_only), (vec![1], 0, true));
    let (s, _) = step(s, Event::ToggleFavorite);
    assert_eq!(s.is_fav, vec![false, false, false, false]);
    assert_eq!((s.order.clone(), s.pos), (vec![3, 2, 1, 0], 2));
}

#[test]
fn player_favourite_follows_the_file() {
    let keys = vec![0, 1, 0];
    let (s, _) = start(vec![0, 1, 2], vec![false; 3], keys, false, false, Repeat::All, 500);
    let (s, _) = step(s, Event::ToggleFavorite);
    assert_eq!(s.is_fav, vec![true, false, true]);
    let (s, a) = step(s, Event::OpenFailed);
    assert_eq!(a, Action::MarkEnded);
    assert!(!s.has_track);
}
