//! The player's command loop as a state machine: a command, the end of a
//! track or a failed open moves the state, and names the one thing the
//! audio side has to do next.
use vstd::prelude::*;
use crate::engine::{Repeat, advance, advanced, build_order, favs_of, fav_pred, natural_order, occurs, position_of};

verus! {

broadcast use vstd::seq_lib::group_filter_ensures;

/// Volume runs from 0 to this, in thousandths.
pub const VOL_MAX: u32 = 1000;

/// The player: the playlist's base order (shuffled or not) and the order
/// played (the base, or its favourites), the cursor in it, which tracks are
/// favourites, and the settings.
pub struct PlayerState {
    /// The playlist in play order before the favourites filter.
    pub base: Vec<usize>,
    /// The tracks in the order they play.
    pub order: Vec<usize>,
    /// The current place in `order`.
    pub pos: usize,
    /// Whether each track of the playlist is a favourite.
    pub is_fav: Vec<bool>,
    /// Each track's file: tracks with the same key are the same file.
    pub keys: Vec<usize>,
    pub shuffle: bool,
    pub fav_only: bool,
    pub repeat: Repeat,
    pub paused: bool,
    /// Volume in thousandths.
    pub vol: u32,
    /// Whether a track is open.
    pub has_track: bool,
}

/// The player as plain values.
pub struct PlayerView {
    pub base: Seq<usize>,
    pub order: Seq<usize>,
    pub pos: int,
    pub is_fav: Seq<bool>,
    pub keys: Seq<usize>,
    pub shuffle: bool,
    pub fav_only: bool,
    pub repeat: Repeat,
    pub paused: bool,
    pub vol: int,
    pub has_track: bool,
}

impl View for PlayerState {
    type V = PlayerView;

    open spec fn view(&self) -> PlayerView {
        PlayerView {
            base: self.base@,
            order: self.order@,
            pos: self.pos as int,
            is_fav: self.is_fav@,
            keys: self.keys@,
            shuffle: self.shuffle,
            fav_only: self.fav_only,
            repeat: self.repeat,
            paused: self.paused,
            vol: self.vol as int,
            has_track: self.has_track,
        }
    }
}

/// Every entry of `s` names a track of a playlist of `n`.
pub open spec fn tracks_of(s: Seq<usize>, n: int) -> bool {
    forall|k: int| 0 <= k < s.len() ==> #[trigger] s[k] < n
}

impl PlayerView {
    /// A playlist of at least one track, orders over it that are not empty,
    /// the cursor inside the order, and the same
    /// favourite mark on every track of one file.
    pub open spec fn wf(self) -> bool {
        let n = self.is_fav.len() as int;
        &&& n >= 1
        &&& self.keys.len() == n
        &&& self.base.len() >= 1
        &&& tracks_of(self.base, n)
        &&& self.order.len() >= 1
        &&& tracks_of(self.order, n)
        &&& 0 <= self.pos < self.order.len()
        &&& 0 <= self.vol <= u32::MAX
        &&& forall|i: int, j: int|
            0 <= i < n && 0 <= j < n && #[trigger] self.keys[i] == #[trigger] self.keys[j] ==> self.is_fav[i]
                == self.is_fav[j]
    }
}

/// What the player is told.
pub enum Event {
    /// Play track `k` of the playlist.
    Play(usize),
    /// Pause, or resume.
    Pause,
    Next,
    Prev,
    /// Set the volume, in thousandths.
    Vol(i64),
    /// Change the volume by this many thousandths.
    VolDelta(i64),
    /// Jump by this many seconds.
    Seek(i64),
    /// Jump to this second.
    SeekTo(u64),
    /// Shuffle on or off; when on, the shuffled playlist to use.
    Shuffle(bool, Vec<usize>),
    /// Shuffle the favourites only, with this shuffled playlist.
    ShuffleFavorites(Vec<usize>),
    ToggleFavorite,
    Repeat(Repeat),
    Quit,
    /// The open track has no more samples.
    TrackEnded,
    /// The track the last action named could not be opened.
    OpenFailed,
}

/// What the audio side has to do.
#[derive(Clone, Copy, Debug, PartialEq, Eq, Structural)]
pub enum Action {
    Nothing,
    /// Open track `track` and play it; with `flush`, drop what is buffered,
    /// else only where the new track's format differs.
    Open { track: usize, flush: bool },
    SetPaused(bool),
    /// Set the output volume, in thousandths.
    SetVolume(u32),
    /// Jump by this many seconds in the open track.
    Seek(i64),
    /// Jump to this second of the open track.
    SeekTo(u64),
    /// Store the favourites.
    SaveFavorites,
    /// Tell that playback has ended.
    MarkEnded,
    /// Warn that no track is a favourite.
    NoFavorites,
    Quit,
}

/// The events that hand over a playlist order hand over one over the
/// playlist's tracks.
pub open spec fn event_ok(s: PlayerView, ev: Event) -> bool {
    match ev {
        Event::Shuffle(on, b) => on ==> b@.len() >= 1 && tracks_of(b@, s.is_fav.len() as int),
        Event::ShuffleFavorites(b) => b@.len() >= 1 && tracks_of(b@, s.is_fav.len() as int),
        _ => true,
    }
}

/// The first place of `x` in `order`, or 0 where it does not occur.
pub open spec fn first_index(order: Seq<usize>, x: usize) -> int {
    if occurs(order, x) {
        choose|i: int| 0 <= i < order.len() && order[i] == x && forall|j: int| 0 <= j < i ==> order[j] != x
    } else {
        0
    }
}

/// The play order built from `base`: its favourites when `fav_only` and
/// there are any, else `base` itself.
pub open spec fn order_of(base: Seq<usize>, is_fav: Seq<bool>, fav_only: bool) -> Seq<usize> {
    if fav_only && favs_of(base, is_fav).len() > 0 {
        favs_of(base, is_fav)
    } else {
        base
    }
}

/// Whether a track of `base` is a favourite.
pub open spec fn any_fav_in(base: Seq<usize>, is_fav: Seq<bool>) -> bool {
    exists|k: int| 0 <= k < base.len() && is_fav[base[k] as int]
}

/// Whether any track is a favourite.
pub open spec fn any_fav(is_fav: Seq<bool>) -> bool {
    exists|i: int| 0 <= i < is_fav.len() && is_fav[i]
}

/// The favourite marks after flipping that of track `idx`, on every track
/// of its file.
pub open spec fn toggled(is_fav: Seq<bool>, keys: Seq<usize>, idx: int) -> Seq<bool> {
    Seq::new(is_fav.len(), |j: int| if keys[j] == keys[idx] { !is_fav[idx] } else { is_fav[j] })
}

/// `v` held to `0 ..= VOL_MAX`.
pub open spec fn vol_clamp(v: int) -> int {
    if v < 0 {
        0
    } else if v > VOL_MAX {
        VOL_MAX as int
    } else {
        v
    }
}

/// The player after `ev`, and what the audio side has to do.
pub open spec fn step_spec(s: PlayerView, ev: Event) -> (PlayerView, Action) {
    let n = s.is_fav.len() as int;
    let cur = s.order[s.pos];
    match ev {
        Event::Play(i) => if i < n {
            let p = first_index(s.order, i);
            (PlayerView { pos: p, paused: false, has_track: true, ..s }, Action::Open { track: s.order[p], flush: true })
        } else {
            (s, Action::Nothing)
        },
        Event::Pause => (PlayerView { paused: !s.paused, ..s }, Action::SetPaused(!s.paused)),
        Event::Next => {
            let p = advanced(s.pos, s.order.len() as int, s.repeat, 1);
            (PlayerView { pos: p, has_track: true, ..s }, Action::Open { track: s.order[p], flush: true })
        },
        Event::Prev => {
            let p = advanced(s.pos, s.order.len() as int, s.repeat, -1);
            (PlayerView { pos: p, has_track: true, ..s }, Action::Open { track: s.order[p], flush: true })
        },
        Event::Vol(v) => {
            let nv = vol_clamp(v as int);
            (PlayerView { vol: nv, ..s }, Action::SetVolume(nv as u32))
        },
        Event::VolDelta(d) => {
            let nv = vol_clamp(s.vol + d);
            (PlayerView { vol: nv, ..s }, Action::SetVolume(nv as u32))
        },
        Event::Seek(d) => (s, if s.has_track { Action::Seek(d) } else { Action::Nothing }),
        Event::SeekTo(t) => (s, if s.has_track { Action::SeekTo(t) } else { Action::Nothing }),
        Event::Shuffle(on, b) => {
            let nb = if on { b@ } else { Seq::new(n as nat, |i: int| i as usize) };
            (PlayerView { base: nb, order: nb, pos: first_index(nb, cur), shuffle: on, fav_only: false, ..s },
                Action::Nothing)
        },
        Event::ShuffleFavorites(b) => if !any_fav(s.is_fav) {
            (s, Action::NoFavorites)
        } else {
            let o = order_of(b@, s.is_fav, true);
            (PlayerView { base: b@, order: o, pos: first_index(o, cur), shuffle: true, fav_only: true, ..s },
                Action::Nothing)
        },
        Event::ToggleFavorite => {
            let f = toggled(s.is_fav, s.keys, cur as int);
            if s.fav_only {
                let o = order_of(s.base, f, true);
                (PlayerView { is_fav: f, order: o, pos: first_index(o, cur), ..s }, Action::SaveFavorites)
            } else {
                (PlayerView { is_fav: f, ..s }, Action::SaveFavorites)
            }
        },
        Event::Repeat(r) => (PlayerView { repeat: r, ..s }, Action::Nothing),
        Event::Quit => (s, Action::Quit),
        Event::TrackEnded => {
            let p = advanced(s.pos, s.order.len() as int, s.repeat, 1);
            if s.repeat == Repeat::Off && p == s.pos {
                (PlayerView { pos: p, has_track: false, ..s }, Action::MarkEnded)
            } else {
                (PlayerView { pos: p, has_track: true, ..s }, Action::Open { track: s.order[p], flush: false })
            }
        },
        Event::OpenFailed => (PlayerView { has_track: false, ..s }, Action::MarkEnded),
    }
}

/// A cursor moved by `dir` stays inside a non-empty order.
proof fn lemma_advanced_in(pos: int, len: int, repeat: Repeat, dir: int)
    requires
        0 <= pos < len,
    ensures
        0 <= advanced(pos, len, repeat, dir) < len,
{
    if repeat != Repeat::One {
        vstd::arithmetic::div_mod::lemma_mod_bound(pos + dir, len);
    }
}

/// The favourites of an order are tracks of it.
proof fn lemma_order_of_tracks(base: Seq<usize>, is_fav: Seq<bool>, fav_only: bool, n: int)
    requires
        tracks_of(base, n),
        base.len() >= 1,
    ensures
        tracks_of(order_of(base, is_fav, fav_only), n),
        order_of(base, is_fav, fav_only).len() >= 1,
{
    let f = favs_of(base, is_fav);
    assert forall|k: int| 0 <= k < f.len() implies #[trigger] f[k] < n by {
        assert(f.contains(f[k]));
        base.lemma_filter_contains_rev(fav_pred(is_fav), f[k]);
    }
}

/// The first place of `x` in `order` (0 where it does not occur).
fn find_pos(order: &Vec<usize>, x: usize) -> (p: usize)
    ensures
        p == first_index(order@, x),
        order@.len() >= 1 ==> p < order@.len(),
{
    let p = position_of(order, x);
    proof {
        if occurs(order@, x) {
            let c = choose|i: int| 0 <= i < order@.len() && order@[i] == x && forall|j: int| 0 <= j < i ==> order@[j] != x;
            assert(0 <= c < order@.len() && order@[c] == x && forall|j: int| 0 <= j < c ==> order@[j] != x);
            if c < p {
                assert(order@[c] != x);
            }
            if p < c {
                assert(order@[p as int] != x);
            }
        }
    }
    p
}

/// Whether any track is a favourite.
fn any_favorite(is_fav: &Vec<bool>) -> (r: bool)
    ensures
        r == any_fav(is_fav@),
{
    let mut i: usize = 0;
    while i < is_fav.len()
        invariant
            i <= is_fav@.len(),
            forall|j: int| 0 <= j < i ==> !is_fav@[j],
        decreases is_fav@.len() - i,
    {
        if is_fav[i] {
            return true;
        }
        i = i + 1;
    }
    false
}

/// The favourite marks with that of track `idx` flipped on every track of
/// its file.
fn toggle(is_fav: &Vec<bool>, keys: &Vec<usize>, idx: usize) -> (r: Vec<bool>)
    requires
        idx < is_fav@.len(),
        keys@.len() == is_fav@.len(),
    ensures
        r@ == toggled(is_fav@, keys@, idx as int),
{
    let flip = !is_fav[idx];
    let key = keys[idx];
    let mut r: Vec<bool> = Vec::new();
    let mut j: usize = 0;
    while j < is_fav.len()
        invariant
            j <= is_fav@.len(),
            keys@.len() == is_fav@.len(),
            idx < is_fav@.len(),
            flip == !is_fav@[idx as int],
            key == keys@[idx as int],
            r@ =~= toggled(is_fav@, keys@, idx as int).take(j as int),
        decreases is_fav@.len() - j,
    {
        if keys[j] == key {
            r.push(flip);
        } else {
            r.push(is_fav[j]);
        }
        j = j + 1;
    }
    proof {
        assert(toggled(is_fav@, keys@, idx as int).take(j as int) =~= toggled(is_fav@, keys@, idx as int));
    }
    r
}

/// `v` held to `0 ..= VOL_MAX`.
fn clamp_vol(v: i128) -> (r: u32)
    ensures
        r == vol_clamp(v as int),
{
    if v < 0 {
        0
    } else if v > VOL_MAX as i128 {
        VOL_MAX
    } else {
        v as u32
    }
}

/// One turn of the player: the state after `ev` and the action it asks
/// for (see `step_spec`). A well-formed player stays well-formed.
pub fn step(s: PlayerState, ev: Event) -> (r: (PlayerState, Action))
    requires
        s@.wf(),
        event_ok(s@, ev),
    ensures
        r.0@ == step_spec(s@, ev).0,
        r.1 == step_spec(s@, ev).1,
        r.0@.wf(),
{
    let ghost s0 = s@;
    let ghost n = s0.is_fav.len() as int;
    let mut st = s;
    let cur = st.order[st.pos];
    match ev {
        Event::Play(i) => {
            if i < st.is_fav.len() {
                let p = find_pos(&st.order, i);
                st.pos = p;
                st.paused = false;
                st.has_track = true;
                let t = st.order[p];
                (st, Action::Open { track: t, flush: true })
            } else {
                (st, Action::Nothing)
            }
        },
        Event::Pause => {
            st.paused = !st.paused;
            let pz = st.paused;
            (st, Action::SetPaused(pz))
        },
        Event::Next => {
            proof {
                lemma_advanced_in(s0.pos, s0.order.len() as int, s0.repeat, 1);
            }
            let len = st.order.len();
            advance(&mut st.pos, len, st.repeat, 1);
            st.has_track = true;
            let t = st.order[st.pos];
            (st, Action::Open { track: t, flush: true })
        },
        Event::Prev => {
            proof {
                lemma_advanced_in(s0.pos, s0.order.len() as int, s0.repeat, -1);
            }
            let len = st.order.len();
            advance(&mut st.pos, len, st.repeat, -1);
            st.has_track = true;
            let t = st.order[st.pos];
            (st, Action::Open { track: t, flush: true })
        },
        Event::Vol(v) => {
            let nv = clamp_vol(v as i128);
            st.vol = nv;
            (st, Action::SetVolume(nv))
        },
        Event::VolDelta(d) => {
            let nv = clamp_vol(st.vol as i128 + d as i128);
            st.vol = nv;
            (st, Action::SetVolume(nv))
        },
        Event::Seek(d) => {
            let a = if st.has_track { Action::Seek(d) } else { Action::Nothing };
            (st, a)
        },
        Event::SeekTo(t) => {
            let a = if st.has_track { Action::SeekTo(t) } else { Action::Nothing };
            (st, a)
        },
        Event::Shuffle(on, b) => {
            let nb = if on { b } else { natural_order(st.is_fav.len()) };
            let p = find_pos(&nb, cur);
            st.order = nb.clone();
            st.base = nb;
            st.pos = p;
            st.shuffle = on;
            st.fav_only = false;
            (st, Action::Nothing)
        },
        Event::ShuffleFavorites(b) => {
            if !any_favorite(&st.is_fav) {
                (st, Action::NoFavorites)
            } else {
                proof {
                    lemma_order_of_tracks(b@, s0.is_fav, true, n);
                }
                let o = build_order(b.clone(), st.is_fav.as_slice(), true);
                let p = find_pos(&o, cur);
                st.base = b;
                st.order = o;
                st.pos = p;
                st.shuffle = true;
                st.fav_only = true;
                (st, Action::Nothing)
            }
        },
        Event::ToggleFavorite => {
            let f = toggle(&st.is_fav, &st.keys, cur);
            st.is_fav = f;
            if st.fav_only {
                proof {
                    lemma_order_of_tracks(s0.base, st.is_fav@, true, n);
                }
                let o = build_order(st.base.clone(), st.is_fav.as_slice(), true);
                let p = find_pos(&o, cur);
                st.order = o;
                st.pos = p;
            }
            (st, Action::SaveFavorites)
        },
        Event::Repeat(r) => {
            st.repeat = r;
            (st, Action::Nothing)
        },
        Event::Quit => (st, Action::Quit),
        Event::TrackEnded => {
            proof {
                lemma_advanced_in(s0.pos, s0.order.len() as int, s0.repeat, 1);
            }
            let last = st.pos;
            let len = st.order.len();
            advance(&mut st.pos, len, st.repeat, 1);
            if st.repeat == Repeat::Off && st.pos == last {
                st.has_track = false;
                (st, Action::MarkEnded)
            } else {
                st.has_track = true;
                let t = st.order[st.pos];
                (st, Action::Open { track: t, flush: false })
            }
        },
        Event::OpenFailed => {
            st.has_track = false;
            (st, Action::MarkEnded)
        },
    }
}

/// The player as it starts: the order built from `base` (favourites only
/// where asked and there are any), the cursor on its first track, playing.
/// The flag tells that favourites only was asked for and no track is one.
pub fn start(base: Vec<usize>, is_fav: Vec<bool>, keys: Vec<usize>, shuffle: bool, fav_only: bool, repeat: Repeat,
    vol: u32) -> (r: (PlayerState, bool))
    requires
        is_fav@.len() >= 1,
        keys@.len() == is_fav@.len(),
        base@.len() >= 1,
        tracks_of(base@, is_fav@.len() as int),
        forall|i: int, j: int|
            0 <= i < is_fav@.len() && 0 <= j < is_fav@.len() && #[trigger] keys@[i] == #[trigger] keys@[j]
                ==> is_fav@[i] == is_fav@[j],
    ensures
        r.1 == (fav_only && !any_fav(is_fav@)),
        r.0@ == (PlayerView {
            base: base@,
            order: order_of(base@, is_fav@, fav_only && !r.1),
            pos: 0,
            is_fav: is_fav@,
            keys: keys@,
            shuffle,
            fav_only: fav_only && !r.1,
            repeat,
            paused: false,
            vol: vol as int,
            has_track: true,
        }),
        r.0@.wf(),
{
    let warn = fav_only && !any_favorite(&is_fav);
    let fo = fav_only && !warn;
    proof {
        lemma_order_of_tracks(base@, is_fav@, fo, is_fav@.len() as int);
    }
    let order = build_order(base.clone(), is_fav.as_slice(), fo);
    (PlayerState { base, order, pos: 0, is_fav, keys, shuffle, fav_only: fo, repeat, paused: false, vol, has_track: true },
        warn)
}

/// Next then Prev (or Prev then Next) comes back to the same place in the
/// order, under every repeat mode.
pub proof fn lemma_next_prev(s: PlayerView)
    requires
        s.wf(),
    ensures
        step_spec(step_spec(s, Event::Next).0, Event::Prev).0.pos == s.pos,
        step_spec(step_spec(s, Event::Prev).0, Event::Next).0.pos == s.pos,
{
    crate::engine::lemma_advance_round_trip(s.pos, s.order.len() as int, s.repeat);
}

/// Where `x` sits at `k`, it has a first place in `order`.
proof fn lemma_first_exists(order: Seq<usize>, x: usize, k: int)
    requires
        0 <= k < order.len(),
        order[k] == x,
    ensures
        exists|i: int| 0 <= i < order.len() && order[i] == x && forall|j: int| 0 <= j < i ==> order[j] != x,
    decreases k,
{
    if exists|j: int| 0 <= j < k && order[j] == x {
        let j = choose|j: int| 0 <= j < k && order[j] == x;
        lemma_first_exists(order, x, j);
    } else {
        assert(forall|j: int| 0 <= j < k ==> order[j] != x);
    }
}

/// Playing a track that the order holds opens that very track, unpaused.
pub proof fn lemma_play_opens(s: PlayerView, i: usize)
    requires
        s.wf(),
        occurs(s.order, i),
    ensures
        step_spec(s, Event::Play(i)).1 == (Action::Open { track: i, flush: true }),
        !step_spec(s, Event::Play(i)).0.paused,
{
    let k = choose|k: int| 0 <= k < s.order.len() && s.order[k] == i;
    lemma_first_exists(s.order, i, k);
}

/// Pausing twice leaves the player as it was.
pub proof fn lemma_pause_twice(s: PlayerView)
    ensures
        step_spec(step_spec(s, Event::Pause).0, Event::Pause).0 == s,
{
}

/// Turning shuffle on or off keeps the current track under the cursor,
/// where the new order holds it.
pub proof fn lemma_shuffle_keeps_track(s: PlayerView, on: bool, b: Vec<usize>)
    requires
        s.wf(),
        event_ok(s, Event::Shuffle(on, b)),
        occurs(step_spec(s, Event::Shuffle(on, b)).0.order, s.order[s.pos]),
    ensures
        ({
            let t = step_spec(s, Event::Shuffle(on, b)).0;
            t.order[t.pos] == s.order[s.pos]
        }),
{
    let o = step_spec(s, Event::Shuffle(on, b)).0.order;
    let x = s.order[s.pos];
    let k = choose|k: int| 0 <= k < o.len() && o[k] == x;
    lemma_first_exists(o, x, k);
}

/// Marking a track a favourite marks every track of the same file, and
/// doing it twice gives back the marks as they were.
pub proof fn lemma_toggle_twice(s: PlayerView)
    requires
        s.wf(),
        !s.fav_only,
    ensures
        step_spec(step_spec(s, Event::ToggleFavorite).0, Event::ToggleFavorite).0.is_fav == s.is_fav,
{
    let cur = s.order[s.pos] as int;
    let f = toggled(s.is_fav, s.keys, cur);
    let g = toggled(f, s.keys, cur);
    assert(g =~= s.is_fav);
}

/// Seeking passes the jump on, in either direction and of any size, to
/// the open track and changes nothing in the player; with no track open it
/// does nothing.
pub proof fn lemma_seek_passes_on(s: PlayerView, d: i64, t: u64)
    ensures
        s.has_track ==> step_spec(s, Event::Seek(d)) == (s, Action::Seek(d)),
        s.has_track ==> step_spec(s, Event::SeekTo(t)) == (s, Action::SeekTo(t)),
        !s.has_track ==> step_spec(s, Event::Seek(d)) == (s, Action::Nothing),
        !s.has_track ==> step_spec(s, Event::SeekTo(t)) == (s, Action::Nothing),
{
}

/// Next, Prev and the end of a track: the cursor moves one place forward
/// (back for Prev), from the last place to the first and from the first to
/// the last, or stays when one track repeats; the track under it is opened,
/// dropping what is buffered except at a track's natural end. At the end of
/// a track the player stops instead when repeat is off and the cursor
/// cannot move.
pub proof fn lemma_transport(s: PlayerView)
    requires
        s.wf(),
    ensures
        ({
            let len = s.order.len() as int;
            let fwd = if s.repeat == Repeat::One { s.pos } else if s.pos + 1 < len { s.pos + 1 } else { 0 };
            let back = if s.repeat == Repeat::One { s.pos } else if s.pos >= 1 { s.pos - 1 } else { len - 1 };
            let (n, an) = step_spec(s, Event::Next);
            let (p, ap) = step_spec(s, Event::Prev);
            let (e, ae) = step_spec(s, Event::TrackEnded);
            &&& n.pos == fwd && an == (Action::Open { track: s.order[fwd], flush: true }) && n.has_track
            &&& n.order == s.order && n.is_fav == s.is_fav && n.paused == s.paused && n.vol == s.vol
            &&& p.pos == back && ap == (Action::Open { track: s.order[back], flush: true }) && p.has_track
            &&& p.order == s.order && p.is_fav == s.is_fav && p.paused == s.paused && p.vol == s.vol
            &&& e.pos == fwd && e.order == s.order
            &&& (s.repeat == Repeat::Off && fwd == s.pos) ==> ae == Action::MarkEnded && !e.has_track
            &&& !(s.repeat == Repeat::Off && fwd == s.pos) ==> ae == (Action::Open { track: s.order[fwd], flush: false })
                && e.has_track
        }),
{
    let len = s.order.len() as int;
    if s.repeat != Repeat::One {
        vstd::arithmetic::div_mod::lemma_fundamental_div_mod_converse(s.pos + 1, len, if s.pos + 1 < len { 0 } else {
            1 }, if s.pos + 1 < len { s.pos + 1 } else { 0 });
        vstd::arithmetic::div_mod::lemma_fundamental_div_mod_converse(s.pos - 1, len, if s.pos >= 1 { 0 } else {
            -1 }, if s.pos >= 1 { s.pos - 1 } else { len - 1 });
    }
}

/// Pause toggles pausing and tells the output; the volume is set to the
/// value asked for, or moved by the change asked for, held to 0 ..= 1000
/// thousandths, and handed to the output; repeat takes the mode given;
/// quit asks to quit; a failed open marks playback ended with no track.
/// None of these touches the order, the cursor or the favourites.
pub proof fn lemma_settings(s: PlayerView, v: i64, d: i64, r: Repeat)
    ensures
        ({
            let (p, ap) = step_spec(s, Event::Pause);
            &&& p.paused == !s.paused && ap == Action::SetPaused(!s.paused)
            &&& p.order == s.order && p.pos == s.pos && p.is_fav == s.is_fav && p.vol == s.vol
        }),
        ({
            let want: int = if v < 0 { 0 } else if v > 1000 { 1000 } else { v as int };
            let (t, a) = step_spec(s, Event::Vol(v));
            &&& t.vol == want && a == Action::SetVolume(want as u32)
            &&& t.order == s.order && t.pos == s.pos && t.paused == s.paused
        }),
        ({
            let sum = s.vol + d;
            let want: int = if sum < 0 { 0 } else if sum > 1000 { 1000 } else { sum };
            let (t, a) = step_spec(s, Event::VolDelta(d));
            &&& t.vol == want && a == Action::SetVolume(want as u32)
            &&& t.order == s.order && t.pos == s.pos && t.paused == s.paused
        }),
        ({
            let (t, a) = step_spec(s, Event::Repeat(r));
            &&& t.repeat == r && a == Action::Nothing && t.order == s.order && t.pos == s.pos
        }),
        step_spec(s, Event::Quit) == (s, Action::Quit),
        ({
            let (t, a) = step_spec(s, Event::OpenFailed);
            &&& !t.has_track && a == Action::MarkEnded && t.order == s.order && t.pos == s.pos
        }),
{
}

/// Play with a number past the playlist does nothing; toggling a
/// favourite flips the mark of the track under the cursor on every track
/// of its file, leaves every other mark, and asks to store them; shuffling
/// the favourites with none asks only for the warning.
pub proof fn lemma_play_and_favourites(s: PlayerView, i: usize, b: Vec<usize>)
    requires
        s.wf(),
    ensures
        i >= s.is_fav.len() ==> step_spec(s, Event::Play(i)) == (s, Action::Nothing),
        ({
            let cur = s.order[s.pos] as int;
            let (t, a) = step_spec(s, Event::ToggleFavorite);
            &&& a == Action::SaveFavorites
            &&& t.is_fav.len() == s.is_fav.len()
            &&& forall|j: int| 0 <= j < s.is_fav.len() && s.keys[j] == s.keys[cur] ==> t.is_fav[j] == !s.is_fav[cur]
            &&& forall|j: int| 0 <= j < s.is_fav.len() && s.keys[j] != s.keys[cur] ==> t.is_fav[j] == s.is_fav[j]
        }),
        (forall|j: int| 0 <= j < s.is_fav.len() ==> !s.is_fav[j]) ==> step_spec(s, Event::ShuffleFavorites(b)) == (s,
            Action::NoFavorites),
{
}

/// The favourites-only order is the favourite tracks of the base order,
/// in that order: every track in it is a favourite of the base, and every
/// favourite of the base is in it; without favourites, or when not asked
/// for, the order is the base itself.
pub proof fn lemma_order_keeps_favourites(base: Seq<usize>, is_fav: Seq<bool>, fav_only: bool)
    requires
        tracks_of(base, is_fav.len() as int),
    ensures
        !fav_only ==> order_of(base, is_fav, fav_only) == base,
        !any_fav_in(base, is_fav) ==> order_of(base, is_fav, fav_only) == base,
        (fav_only && any_fav_in(base, is_fav)) ==> ({
            let o = order_of(base, is_fav, fav_only);
            &&& o.len() >= 1
            &&& forall|k: int| 0 <= k < o.len() ==> is_fav[#[trigger] o[k] as int] && base.contains(o[k])
            &&& forall|k: int| 0 <= k < base.len() && is_fav[base[k] as int] ==> #[trigger] o.contains(base[k])
        }),
{
    let f = favs_of(base, is_fav);
    let pr = fav_pred(is_fav);
    assert forall|k: int| 0 <= k < f.len() implies is_fav[#[trigger] f[k] as int] && base.contains(f[k]) by {
        assert(pr(f[k]));
        assert(f.contains(f[k]));
        base.lemma_filter_contains_rev(pr, f[k]);
    }
    assert forall|k: int| 0 <= k < base.len() && is_fav[base[k] as int] implies #[trigger] f.contains(base[k]) by {
        assert(pr(base[k]));
        base.lemma_filter_contains(pr, k);
    }
    if any_fav_in(base, is_fav) {
        let k = choose|k: int| 0 <= k < base.len() && is_fav[base[k] as int];
        assert(f.contains(base[k]));
    } else {
        assert(f.len() == 0) by {
            if f.len() > 0 {
                assert(is_fav[f[0] as int] && base.contains(f[0]));
                let j = choose|j: int| 0 <= j < base.len() && base[j] == f[0];
                assert(is_fav[base[j] as int]);
            }
        }
    }
}

} // verus!
