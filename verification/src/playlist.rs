use vstd::prelude::*;

use crate::delimiters::{field_sep_str, header_sep_str};
use crate::music_library::{clone_tracks, LibraryView, MusicLibrary};
use crate::shared::{all_digits, clean_field, clean_track, dec_chars, dec_val, format_usize, header_chars, is_digit,
    lemma_dec_chars_val, lemma_load_save_matches, lemma_parse_save_round, load_save_spec,
    load_tracks, parse_usize, process_save_header, render_tracks, save_chars, FormatError};
use crate::track::{Track, TrackView};

verus! {

broadcast use vstd::std_specs::vec::group_vec_axioms;

/// The mathematical value of a playlist: its name, its ordered tracks, the
/// anti-repeat window, its dynamic sources, and the cursor. A playlist can
/// itself be a dynamic source of another playlist, so the value is
/// recursive.
#[verifier::ext_equal]
pub struct PlaylistView {
    pub name: Seq<char>,
    pub tracks: Seq<TrackView>,
    pub window: Seq<TrackView>,
    pub playlist_sources: Seq<PlaylistView>,
    pub library_sources: Seq<LibraryView>,
    pub pos: Option<int>,
}

/// An ordered, mutable track sequence with a cursor, plus zero or more
/// weighted dynamic sources that feed it once the explicit sequence is
/// exhausted.
pub struct Playlist {
    name: String,
    tracks: Vec<Track>,
    window: Vec<Track>,
    dynamic_playlist_sources: Vec<Playlist>,
    dynamic_library_sources: Vec<MusicLibrary>,
    pos: Option<usize>,
}

/// The value of a playlist used as a dynamic source, one level down.
pub closed spec fn playlist_view(p: Playlist) -> PlaylistView
    decreases p,
{
    PlaylistView {
        name: p.name@,
        tracks: p.tracks.deep_view(),
        window: p.window.deep_view(),
        playlist_sources: views_of_playlists(p.dynamic_playlist_sources@),
        library_sources: views_of_libraries(p.dynamic_library_sources@),
        pos: match p.pos {
            Some(i) => Some(i as int),
            None => None,
        },
    }
}

/// The values of a sequence of source playlists.
pub closed spec fn views_of_playlists(s: Seq<Playlist>) -> Seq<PlaylistView>
    decreases s,
{
    if s.len() == 0 {
        Seq::empty()
    } else {
        views_of_playlists(s.drop_last()).push(playlist_view(s.last()))
    }
}

/// The values of a sequence of source libraries.
pub open spec fn views_of_libraries(s: Seq<MusicLibrary>) -> Seq<LibraryView> {
    Seq::new(s.len(), |i: int| s[i]@)
}

impl View for Playlist {
    type V = PlaylistView;

    open spec fn view(&self) -> PlaylistView {
        playlist_view(*self)
    }
}

impl DeepView for Playlist {
    type V = PlaylistView;

    open spec fn deep_view(&self) -> PlaylistView {
        self@
    }
}

/// Taking one view of each source playlist, one at a time, is taking the
/// views pointwise.
pub proof fn lemma_views_of_playlists_index(s: Seq<Playlist>)
    ensures
        views_of_playlists(s).len() == s.len(),
        forall|i: int| 0 <= i < s.len() ==> views_of_playlists(s)[i] == playlist_view(s[i]),
    decreases s,
{
    if s.len() > 0 {
        lemma_views_of_playlists_index(s.drop_last());
    }
}

/// The cursor, when set, never lies beyond the track list.
pub open spec fn pl_wf(v: PlaylistView) -> bool {
    match v.pos {
        Some(p) => 0 <= p <= v.tracks.len(),
        None => true,
    }
}

/// The combined weight of a list of source playlists.
pub open spec fn sum_playlist_weights(s: Seq<PlaylistView>) -> nat
    decreases s.len(),
{
    if s.len() == 0 {
        0
    } else {
        s[0].tracks.len() + sum_playlist_weights(s.drop_first())
    }
}

/// The combined weight of a list of source libraries.
pub open spec fn sum_library_weights(s: Seq<LibraryView>) -> nat
    decreases s.len(),
{
    if s.len() == 0 {
        0
    } else {
        s[0].tracks.len() + sum_library_weights(s.drop_first())
    }
}

/// The total dynamic weight of a playlist: the combined track count of all
/// its dynamic sources.
pub open spec fn dyn_weight(v: PlaylistView) -> nat {
    sum_playlist_weights(v.playlist_sources) + sum_library_weights(v.library_sources)
}

/// A track one of the dynamic sources can yield.
pub open spec fn is_candidate(v: PlaylistView, t: TrackView) -> bool {
    (exists|i: int|
        0 <= i < v.playlist_sources.len() && v.playlist_sources[i].tracks.contains(t)) || (
    exists|i: int|
        0 <= i < v.library_sources.len() && v.library_sources[i].tracks.contains(t))
}

/// Every candidate track already sits in the window: the degenerate state
/// in which a repeat must be accepted.
pub open spec fn all_candidates_in_window(v: PlaylistView) -> bool {
    forall|t: TrackView| #[trigger] is_candidate(v, t) ==> v.window.contains(t)
}

/// The anti-repeat window size for a total dynamic weight `w`: half the
/// candidate pool, rounded up, less one, and never more than thirty.
pub open spec fn window_size_of(w: nat) -> nat {
    if w == 0 {
        0
    } else if (w + 1) / 2 >= 31 {
        30
    } else {
        (((w + 1) / 2) - 1) as nat
    }
}

/// The window after a generated track is recorded: appended, with the
/// oldest entry evicted when the window would outgrow its size.
pub open spec fn window_push(w: Seq<TrackView>, t: TrackView, cap: nat) -> Seq<TrackView> {
    if w.len() + 1 > cap {
        w.push(t).drop_first()
    } else {
        w.push(t)
    }
}

/// Where the cursor lands when it advances: from unset to the start,
/// otherwise one step forward, never beyond the end of the track list.
pub open spec fn advanced_pos(tracks_len: int, pos: Option<int>) -> int {
    match pos {
        None => 0,
        Some(p) => if p + 1 < tracks_len {
            p + 1
        } else {
            tracks_len
        },
    }
}

/// One step backward: from the first track the cursor rewinds to unset;
/// when unset it stays unset and nothing is returned.
pub open spec fn prev_step(tracks: Seq<TrackView>, pos: Option<int>) -> (Option<int>, Option<
    TrackView,
>) {
    match pos {
        None => (None, None),
        Some(p) => {
            if p == 0 {
                (None, None)
            } else if p - 1 < tracks.len() {
                (Some(p - 1), Some(tracks[p - 1]))
            } else {
                (Some(p - 1), None)
            }
        },
    }
}

/// How one call of `next` relates the playlist before to the playlist
/// after and to the returned track. Within the static range the relation
/// is a function; in the generative range the returned track is drawn by
/// chance, and the relation states what holds of every outcome.
pub open spec fn next_rel(pre: PlaylistView, post: PlaylistView, r: Option<TrackView>) -> bool {
    let np = advanced_pos(pre.tracks.len() as int, pre.pos);
    &&& post.name == pre.name
    &&& post.playlist_sources == pre.playlist_sources
    &&& post.library_sources == pre.library_sources
    &&& post.pos == Some(np)
    &&& (np < pre.tracks.len() ==> {
        &&& post.tracks == pre.tracks
        &&& post.window == pre.window
        &&& r == Some(pre.tracks[np])
    })
    &&& (np == pre.tracks.len() && dyn_weight(pre) == 0 ==> {
        &&& post.tracks == pre.tracks
        &&& post.window == pre.window
        &&& r is None
    })
    &&& (np == pre.tracks.len() && dyn_weight(pre) > 0 ==> match r {
        Some(t) => {
            &&& is_candidate(pre, t)
            &&& post.tracks == pre.tracks.push(t)
            &&& post.window == window_push(pre.window, t, window_size_of(dyn_weight(pre)))
            &&& (!pre.window.contains(t) || all_candidates_in_window(pre))
        },
        None => false,
    })
}

/// Along a chain of `next` calls on a playlist without dynamic weight,
/// the tracks and the window never change, and the cursor after `k` calls
/// from an unset start sits at `k - 1`, capped at the track count.
proof fn lemma_static_run_state(states: Seq<PlaylistView>, outs: Seq<Option<TrackView>>, k: int)
    requires
        states.len() == outs.len() + 1,
        states[0].pos is None,
        forall|i: int|
            0 <= i < outs.len() ==> next_rel(states[i], #[trigger] states[i + 1], outs[i]),
        forall|i: int| 0 <= i < states.len() ==> dyn_weight(#[trigger] states[i]) == 0,
        0 <= k < states.len(),
    ensures
        states[k].tracks == states[0].tracks,
        states[k].window == states[0].window,
        states[k].pos == (if k == 0 {
            None
        } else if k - 1 < states[0].tracks.len() {
            Some(k - 1)
        } else {
            Some(states[0].tracks.len() as int)
        }),
    decreases k,
{
    if k > 0 {
        lemma_static_run_state(states, outs, k - 1);
        let i = k - 1;
        assert(next_rel(states[i], states[i + 1], outs[i]));
        assert(states[i + 1] == states[k]);
    }
}

/// A playlist holding only static tracks replays them in order: along a
/// chain of `next` calls starting with the cursor unset, the first calls
/// yield the tracks one by one, every later call yields nothing, and no
/// call changes the tracks or the window.
pub proof fn lemma_static_playlist_plays_in_order(
    states: Seq<PlaylistView>,
    outs: Seq<Option<TrackView>>,
)
    requires
        states.len() == outs.len() + 1,
        states[0].pos is None,
        forall|i: int|
            0 <= i < outs.len() ==> next_rel(states[i], #[trigger] states[i + 1], outs[i]),
        forall|i: int| 0 <= i < states.len() ==> dyn_weight(#[trigger] states[i]) == 0,
    ensures
        forall|i: int|
            0 <= i < outs.len() ==> #[trigger] outs[i] == (if i < states[0].tracks.len() {
                Some(states[0].tracks[i])
            } else {
                None::<TrackView>
            }),
        forall|i: int|
            0 <= i < outs.len() ==> #[trigger] states[i + 1].tracks == states[0].tracks
                && states[i + 1].window == states[0].window,
{
    assert forall|i: int| 0 <= i < outs.len() implies #[trigger] outs[i] == (if i
        < states[0].tracks.len() {
        Some(states[0].tracks[i])
    } else {
        None::<TrackView>
    }) && states[i + 1].tracks == states[0].tracks && states[i + 1].window
        == states[0].window by {
        lemma_static_run_state(states, outs, i);
        lemma_static_run_state(states, outs, i + 1);
        assert(next_rel(states[i], states[i + 1], outs[i]));
    }
}

/// Rewinding past the start is harmless: with the cursor unset, `prev`
/// yields nothing and leaves the cursor unset, and a `next` right after
/// still yields the first track.
pub proof fn lemma_prev_at_start_then_next(
    p0: PlaylistView,
    p1: PlaylistView,
    p2: PlaylistView,
    r1: Option<TrackView>,
    r2: Option<TrackView>,
)
    requires
        p0.pos is None,
        p0.tracks.len() > 0,
        p1 == (PlaylistView { pos: prev_step(p0.tracks, p0.pos).0, ..p0 }),
        r1 == prev_step(p0.tracks, p0.pos).1,
        next_rel(p1, p2, r2),
    ensures
        r1 is None,
        p1 == p0,
        r2 == Some(p0.tracks[0]),
{
    assert(p1 =~= p0);
}

/// One generative step: a `next` call past the static range of a playlist
/// whose sources have weight, yielding the track `t`.
pub open spec fn gen_step(pre: PlaylistView, post: PlaylistView, t: TrackView) -> bool {
    &&& next_rel(pre, post, Some(t))
    &&& advanced_pos(pre.tracks.len() as int, pre.pos) == pre.tracks.len()
    &&& dyn_weight(pre) > 0
}

/// Along a chain of generative steps the sources never change, and the
/// window holds exactly the most recent generated tracks: the last
/// `min(w0 + k, cap)` entries of the initial window followed by the `k`
/// tracks generated so far.
proof fn lemma_gen_run_window(states: Seq<PlaylistView>, outs: Seq<TrackView>, k: int)
    requires
        states.len() == outs.len() + 1,
        forall|i: int|
            0 <= i < outs.len() ==> gen_step(states[i], #[trigger] states[i + 1], outs[i]),
        states[0].window.len() <= window_size_of(dyn_weight(states[0])),
        0 <= k < states.len(),
    ensures
        states[k].playlist_sources == states[0].playlist_sources,
        states[k].library_sources == states[0].library_sources,
        ({
            let cap = window_size_of(dyn_weight(states[0])) as int;
            let w0 = states[0].window.len() as int;
            let len_k = if w0 + k > cap {
                cap
            } else {
                w0 + k
            };
            states[k].window == (states[0].window + outs.take(k)).skip(w0 + k - len_k)
        }),
    decreases k,
{
    let cap = window_size_of(dyn_weight(states[0])) as int;
    let w0 = states[0].window.len() as int;
    if k == 0 {
        assert(states[0].window =~= (states[0].window + outs.take(0)).skip(0));
    } else {
        lemma_gen_run_window(states, outs, k - 1);
        let i = k - 1;
        assert(gen_step(states[i], states[i + 1], outs[i]));
        assert(states[i + 1] == states[k]);
        let len_prev = if w0 + i > cap {
            cap
        } else {
            w0 + i
        };
        let d_prev = w0 + i - len_prev;
        let full_prev = states[0].window + outs.take(i);
        let full_k = states[0].window + outs.take(k);
        assert(full_k =~= full_prev.push(outs[i]));
        assert(states[i].window == full_prev.skip(d_prev));
        assert(dyn_weight(states[i]) == dyn_weight(states[0]));
        assert(states[k].window == window_push(
            states[i].window,
            outs[i],
            window_size_of(dyn_weight(states[0])),
        ));
        assert(states[i].window.push(outs[i]) =~= full_k.skip(d_prev));
        if states[i].window.len() + 1 > cap {
            assert(states[k].window == states[i].window.push(outs[i]).drop_first());
            assert(full_k.skip(d_prev).drop_first() =~= full_k.skip(d_prev + 1));
        } else {
            assert(states[k].window == states[i].window.push(outs[i]));
        }
        let len_k = if w0 + k > cap {
            cap
        } else {
            w0 + k
        };
        assert(states[k].window =~= full_k.skip(w0 + k - len_k));
    }
}

/// The anti-repeat guarantee: along a chain of generative steps whose
/// starting window is within its size, two occurrences of the same
/// generated track lie more than the window size apart, unless every
/// candidate of the later state already sat in its window — the
/// degenerate pool in which a repeat must be accepted.
pub proof fn lemma_anti_repeat_spacing(
    states: Seq<PlaylistView>,
    outs: Seq<TrackView>,
    i: int,
    j: int,
)
    requires
        states.len() == outs.len() + 1,
        forall|k: int|
            0 <= k < outs.len() ==> gen_step(states[k], #[trigger] states[k + 1], outs[k]),
        states[0].window.len() <= window_size_of(dyn_weight(states[0])),
        0 <= i < j < outs.len(),
        outs[i] == outs[j],
    ensures
        j - i > window_size_of(dyn_weight(states[0])) || all_candidates_in_window(states[j]),
{
    let cap = window_size_of(dyn_weight(states[0])) as int;
    if j - i <= cap {
        lemma_gen_run_window(states, outs, j);
        let w0 = states[0].window.len() as int;
        let len_j = if w0 + j > cap {
            cap
        } else {
            w0 + j
        };
        let full_j = states[0].window + outs.take(j);
        let d = w0 + j - len_j;
        assert(states[j].window == full_j.skip(d));
        assert(full_j[w0 + i] == outs[i]);
        let idx = w0 + i - d;
        assert(0 <= idx < states[j].window.len());
        assert(states[j].window[idx] == outs[i]);
        assert(states[j].window.contains(outs[j]));
        assert(gen_step(states[j], states[j + 1], outs[j]));
    }
}

/// The value of an optional track.
pub open spec fn opt_track_view(r: Option<Track>) -> Option<TrackView> {
    match r {
        Some(t) => Some(t@),
        None => None,
    }
}

/// Copy a list of source playlists; the copy has the same views.
fn clone_playlists(v: &Vec<Playlist>) -> (r: Vec<Playlist>)
    ensures
        views_of_playlists(r@) == views_of_playlists(v@),
    decreases v@,
{
    let mut r: Vec<Playlist> = Vec::new();
    let mut i: usize = 0;
    while i < v.len()
        invariant
            0 <= i <= v@.len(),
            r@.len() == i,
            forall|j: int| 0 <= j < i ==> playlist_view(#[trigger] r@[j]) == playlist_view(v@[j]),
        decreases v@.len() - i,
    {
        proof {
            assert(decreases_to!(v@ => v@[i as int]));
        }
        let c = v[i].clone();
        r.push(c);
        i = i + 1;
    }
    proof {
        lemma_views_of_playlists_index(r@);
        lemma_views_of_playlists_index(v@);
        assert(views_of_playlists(r@) =~= views_of_playlists(v@));
    }
    r
}

/// Copy a list of source libraries; the copy has the same views.
fn clone_libraries(v: &Vec<MusicLibrary>) -> (r: Vec<MusicLibrary>)
    ensures
        views_of_libraries(r@) == views_of_libraries(v@),
{
    let r = v.clone();
    proof {
        assert forall|i: int| 0 <= i < v@.len() implies views_of_libraries(r@)[i]
            == views_of_libraries(v@)[i] by {
            assert(vstd::pervasive::cloned::<MusicLibrary>(v@[i], r@[i]));
        }
        assert(views_of_libraries(r@) =~= views_of_libraries(v@));
    }
    r
}

impl Playlist {
    /// A new, empty playlist: no tracks, no sources, cursor before the
    /// start.
    pub fn new(name: String) -> (r: Playlist)
        ensures
            r@ == (PlaylistView {
                name: name@,
                tracks: Seq::empty(),
                window: Seq::empty(),
                playlist_sources: Seq::empty(),
                library_sources: Seq::empty(),
                pos: None,
            }),
    {
        let r = Playlist {
            name,
            tracks: Vec::new(),
            window: Vec::new(),
            dynamic_playlist_sources: Vec::new(),
            dynamic_library_sources: Vec::new(),
            pos: None,
        };
        proof {
            assert(r@ =~= (PlaylistView {
                name: r.name@,
                tracks: Seq::empty(),
                window: Seq::empty(),
                playlist_sources: Seq::empty(),
                library_sources: Seq::empty(),
                pos: None,
            }));
        }
        r
    }

    /// The playlist's name.
    pub fn get_name(&self) -> (r: &str)
        ensures
            r@ == self@.name,
    {
        self.name.as_str()
    }

    /// A copy of the tracks, in playback order.
    pub fn get_tracks(&self) -> (r: Vec<Track>)
        ensures
            r.deep_view() == self@.tracks,
    {
        clone_tracks(&self.tracks)
    }

    /// Rewind the cursor to before the first track.
    pub fn reset_position(&mut self)
        ensures
            final(self)@ == (PlaylistView { pos: None, ..old(self)@ }),
    {
        self.pos = None;
    }

    /// Append a track to the end of the playlist.
    pub fn add_track(&mut self, track: Track)
        ensures
            final(self)@ == (PlaylistView {
                tracks: old(self)@.tracks.push(track@),
                ..old(self)@
            }),
    {
        self.tracks.push(track);
        proof {
            assert(self.tracks.deep_view() =~= old(self).tracks.deep_view().push(
                self.tracks.deep_view().last(),
            ));
        }
    }

    /// Remove the track at `index`. The cursor is drawn back to the new
    /// end of the list when it would otherwise point beyond it.
    pub fn remove_track(&mut self, index: usize)
        requires
            index < old(self)@.tracks.len(),
        ensures
            final(self)@ == (PlaylistView {
                tracks: old(self)@.tracks.remove(index as int),
                pos: match old(self)@.pos {
                    None => None,
                    Some(p) => Some(
                        if p <= old(self)@.tracks.len() - 1 {
                            p
                        } else {
                            old(self)@.tracks.len() - 1
                        },
                    ),
                },
                ..old(self)@
            }),
            pl_wf(old(self)@) ==> pl_wf(final(self)@),
    {
        self.tracks.remove(index);
        match self.pos {
            Some(p) => {
                if p > self.tracks.len() {
                    self.pos = Some(self.tracks.len());
                }
            },
            None => {},
        }
        proof {
            assert(self.tracks.deep_view() =~= old(self)@.tracks.remove(index as int));
        }
    }

    /// The track at `position`, if there is one.
    pub fn get(&self, position: usize) -> (r: Option<Track>)
        ensures
            match r {
                Some(t) => position < self@.tracks.len() && t@ == self@.tracks[position as int],
                None => position >= self@.tracks.len(),
            },
    {
        if position < self.tracks.len() {
            Some(self.tracks[position].clone())
        } else {
            None
        }
    }

    /// Step the cursor back one track and return the track it lands on;
    /// from the first track it rewinds to before the start and returns
    /// nothing, and from there it stays put.
    pub fn prev(&mut self) -> (r: Option<Track>)
        ensures
            final(self)@ == (PlaylistView {
                pos: prev_step(old(self)@.tracks, old(self)@.pos).0,
                ..old(self)@
            }),
            opt_track_view(r) == prev_step(old(self)@.tracks, old(self)@.pos).1,
            pl_wf(old(self)@) ==> pl_wf(final(self)@),
    {
        match self.pos {
            Some(p) => {
                if p == 0 {
                    self.pos = None;
                    None
                } else {
                    self.pos = Some(p - 1);
                    if p - 1 < self.tracks.len() {
                        Some(self.tracks[p - 1].clone())
                    } else {
                        None
                    }
                }
            },
            None => None,
        }
    }

    /// Register another playlist as a weighted dynamic source. The source
    /// is taken as it is now: later changes to the original do not reach
    /// this playlist.
    pub fn add_dynamic_playlist_source(&mut self, source: Playlist)
        ensures
            final(self)@ == (PlaylistView {
                playlist_sources: old(self)@.playlist_sources.push(source@),
                ..old(self)@
            }),
    {
        self.dynamic_playlist_sources.push(source);
        proof {
            assert(self.dynamic_playlist_sources@.drop_last() =~= old(
                self,
            ).dynamic_playlist_sources@);
        }
    }

    /// Register a library as a weighted dynamic source.
    pub fn add_dynamic_library_source(&mut self, source: MusicLibrary)
        ensures
            final(self)@ == (PlaylistView {
                library_sources: old(self)@.library_sources.push(source@),
                ..old(self)@
            }),
    {
        self.dynamic_library_sources.push(source);
        proof {
            assert(views_of_libraries(self.dynamic_library_sources@) =~= views_of_libraries(
                old(self).dynamic_library_sources@,
            ).push(self.dynamic_library_sources@.last()@));
        }
    }

    /// Copies of the registered playlist sources, in registration order.
    pub fn get_dynamic_playlist_sources(&self) -> (r: Vec<Playlist>)
        ensures
            views_of_playlists(r@) == self@.playlist_sources,
    {
        clone_playlists(&self.dynamic_playlist_sources)
    }

    /// Copies of the registered library sources, in registration order.
    pub fn get_dynamic_library_sources(&self) -> (r: Vec<MusicLibrary>)
        ensures
            views_of_libraries(r@) == self@.library_sources,
    {
        clone_libraries(&self.dynamic_library_sources)
    }

    /// A playlist's weight for scheduling is its track count.
    pub fn get_weight(&self) -> (w: usize)
        ensures
            w == self@.tracks.len(),
    {
        self.tracks.len()
    }

    /// One track drawn at random from this playlist's own tracks; the
    /// playlist must not be empty. Which track comes back is chance; it is
    /// always one of the playlist's own.
    pub fn get_random_track(&self) -> (t: Track)
        requires
            self@.tracks.len() > 0,
        ensures
            self@.tracks.contains(t@),
    {
        let i = crate::rng::random_in_range(0, self.tracks.len() - 1);
        let t = self.tracks[i].clone();
        proof {
            assert(self@.tracks[i as int] == t@);
        }
        t
    }
}

/// Walking one source forward splits its weight off the remaining sum.
proof fn lemma_sum_pl_skip(s: Seq<PlaylistView>, i: int)
    requires
        0 <= i < s.len(),
    ensures
        sum_playlist_weights(s.skip(i)) == s[i].tracks.len() + sum_playlist_weights(
            s.skip(i + 1),
        ),
{
    assert(s.skip(i).drop_first() =~= s.skip(i + 1));
    assert(s.skip(i)[0] == s[i]);
}

/// Walking one library forward splits its weight off the remaining sum.
proof fn lemma_sum_lib_skip(s: Seq<LibraryView>, i: int)
    requires
        0 <= i < s.len(),
    ensures
        sum_library_weights(s.skip(i)) == s[i].tracks.len() + sum_library_weights(s.skip(i + 1)),
{
    assert(s.skip(i).drop_first() =~= s.skip(i + 1));
    assert(s.skip(i)[0] == s[i]);
}

/// Whether the anti-repeat window holds this track.
fn window_contains(w: &Vec<Track>, t: &Track) -> (r: bool)
    ensures
        r == w.deep_view().contains(t@),
{
    let mut i: usize = 0;
    while i < w.len()
        invariant
            0 <= i <= w.len(),
            forall|j: int| 0 <= j < i ==> w.deep_view()[j] != t@,
        decreases w.len() - i,
    {
        if w[i] == *t {
            proof {
                assert(w.deep_view()[i as int] == t@);
            }
            return true;
        }
        i = i + 1;
    }
    proof {
        if w.deep_view().contains(t@) {
            let j = choose|j: int| 0 <= j < w.deep_view().len() && w.deep_view()[j] == t@;
            assert(w.deep_view()[j] != t@);
        }
    }
    false
}

impl Playlist {
    /// The total weight of all dynamic sources. It must fit the machine.
    fn total_dyn_weight(&self) -> (w: usize)
        requires
            dyn_weight(self@) <= usize::MAX,
        ensures
            w as nat == dyn_weight(self@),
    {
        proof {
            lemma_views_of_playlists_index(self.dynamic_playlist_sources@);
        }
        let ghost pv = self@.playlist_sources;
        let ghost lv = self@.library_sources;
        let mut acc: usize = 0;
        let mut i: usize = 0;
        proof {
            assert(pv.skip(0) =~= pv);
        }
        while i < self.dynamic_playlist_sources.len()
            invariant
                0 <= i <= self.dynamic_playlist_sources@.len(),
                pv == self@.playlist_sources,
                lv == self@.library_sources,
                pv.len() == self.dynamic_playlist_sources@.len(),
                forall|j: int|
                    0 <= j < pv.len() ==> pv[j] == playlist_view(
                        #[trigger] self.dynamic_playlist_sources@[j],
                    ),
                dyn_weight(self@) <= usize::MAX,
                acc + sum_playlist_weights(pv.skip(i as int)) + sum_library_weights(lv)
                    == dyn_weight(self@),
            decreases self.dynamic_playlist_sources@.len() - i,
        {
            proof {
                lemma_sum_pl_skip(pv, i as int);
            }
            let sw = self.dynamic_playlist_sources[i].get_weight();
            acc = acc + sw;
            i = i + 1;
        }
        proof {
            assert(pv.skip(pv.len() as int) =~= Seq::<PlaylistView>::empty());
            assert(lv.skip(0) =~= lv);
        }
        let mut j: usize = 0;
        while j < self.dynamic_library_sources.len()
            invariant
                0 <= j <= self.dynamic_library_sources@.len(),
                lv == self@.library_sources,
                lv.len() == self.dynamic_library_sources@.len(),
                forall|k: int|
                    0 <= k < lv.len() ==> lv[k] == #[trigger] self.dynamic_library_sources@[k]@,
                dyn_weight(self@) <= usize::MAX,
                acc + sum_library_weights(lv.skip(j as int)) == dyn_weight(self@),
            decreases self.dynamic_library_sources@.len() - j,
        {
            proof {
                lemma_sum_lib_skip(lv, j as int);
            }
            let sw = self.dynamic_library_sources[j].get_weight();
            acc = acc + sw;
            j = j + 1;
        }
        proof {
            assert(lv.skip(lv.len() as int) =~= Seq::<LibraryView>::empty());
        }
        acc
    }

    /// The anti-repeat window size: half the combined source weight,
    /// rounded up, less one, and at most thirty. Weights beyond that cap
    /// cannot change the answer, so the sum saturates early and never
    /// overflows.
    fn get_window_size(&self) -> (w: usize)
        ensures
            w as nat == window_size_of(dyn_weight(self@)),
    {
        proof {
            lemma_views_of_playlists_index(self.dynamic_playlist_sources@);
        }
        let ghost pv = self@.playlist_sources;
        let ghost lv = self@.library_sources;
        let ghost total = dyn_weight(self@);
        let mut acc: usize = 0;
        let mut i: usize = 0;
        proof {
            assert(pv.skip(0) =~= pv);
        }
        while i < self.dynamic_playlist_sources.len()
            invariant
                0 <= i <= self.dynamic_playlist_sources@.len(),
                pv == self@.playlist_sources,
                lv == self@.library_sources,
                total == dyn_weight(self@),
                pv.len() == self.dynamic_playlist_sources@.len(),
                forall|j: int|
                    0 <= j < pv.len() ==> pv[j] == playlist_view(
                        #[trigger] self.dynamic_playlist_sources@[j],
                    ),
                acc <= 62,
                ({
                    let partial = total as int - sum_playlist_weights(pv.skip(i as int))
                        - sum_library_weights(lv);
                    acc as int == if partial > 62 {
                        62int
                    } else {
                        partial
                    }
                }),
            decreases self.dynamic_playlist_sources@.len() - i,
        {
            proof {
                lemma_sum_pl_skip(pv, i as int);
            }
            let sw = self.dynamic_playlist_sources[i].get_weight();
            if sw >= 62 - acc {
                acc = 62;
            } else {
                acc = acc + sw;
            }
            i = i + 1;
        }
        proof {
            assert(pv.skip(pv.len() as int) =~= Seq::<PlaylistView>::empty());
            assert(lv.skip(0) =~= lv);
        }
        let mut j: usize = 0;
        while j < self.dynamic_library_sources.len()
            invariant
                0 <= j <= self.dynamic_library_sources@.len(),
                lv == self@.library_sources,
                total == dyn_weight(self@),
                lv.len() == self.dynamic_library_sources@.len(),
                forall|k: int|
                    0 <= k < lv.len() ==> lv[k] == #[trigger] self.dynamic_library_sources@[k]@,
                acc <= 62,
                ({
                    let partial = total as int - sum_library_weights(lv.skip(j as int));
                    acc as int == if partial > 62 {
                        62int
                    } else {
                        partial
                    }
                }),
            decreases self.dynamic_library_sources@.len() - j,
        {
            proof {
                lemma_sum_lib_skip(lv, j as int);
            }
            let sw = self.dynamic_library_sources[j].get_weight();
            if sw >= 62 - acc {
                acc = 62;
            } else {
                acc = acc + sw;
            }
            j = j + 1;
        }
        proof {
            assert(lv.skip(lv.len() as int) =~= Seq::<LibraryView>::empty());
        }
        if acc == 0 {
            0
        } else {
            let half = (acc + 1) / 2 - 1;
            let r = if half > 30 {
                30
            } else {
                half
            };
            proof {
                if total > 62 {
                    assert(acc == 62);
                    assert((total + 1) / 2 >= 31) by (nonlinear_arith)
                        requires
                            total > 62,
                    ;
                }
            }
            r
        }
    }

    /// One generative draw: pick a source with probability proportional to
    /// its weight, then a uniformly random track of that source. Yields
    /// nothing exactly when the sources have no weight at all.
    fn get_random_next_track(&self) -> (r: Option<Track>)
        requires
            dyn_weight(self@) <= usize::MAX,
        ensures
            match r {
                Some(t) => dyn_weight(self@) > 0 && is_candidate(self@, t@),
                None => dyn_weight(self@) == 0,
            },
    {
        let total = self.total_dyn_weight();
        if total == 0 {
            return None;
        }
        proof {
            lemma_views_of_playlists_index(self.dynamic_playlist_sources@);
        }
        let ghost pv = self@.playlist_sources;
        let ghost lv = self@.library_sources;
        let mut rnum = crate::rng::random_in_range(1, total);
        let mut i: usize = 0;
        proof {
            assert(pv.skip(0) =~= pv);
        }
        while i < self.dynamic_playlist_sources.len()
            invariant
                0 <= i <= self.dynamic_playlist_sources@.len(),
                pv == self@.playlist_sources,
                lv == self@.library_sources,
                pv.len() == self.dynamic_playlist_sources@.len(),
                forall|j: int|
                    0 <= j < pv.len() ==> pv[j] == playlist_view(
                        #[trigger] self.dynamic_playlist_sources@[j],
                    ),
                0 < dyn_weight(self@) <= usize::MAX,
                1 <= rnum,
                rnum as nat <= sum_playlist_weights(pv.skip(i as int)) + sum_library_weights(lv),
            decreases self.dynamic_playlist_sources@.len() - i,
        {
            proof {
                lemma_sum_pl_skip(pv, i as int);
            }
            let sw = self.dynamic_playlist_sources[i].get_weight();
            if rnum <= sw {
                let t = self.dynamic_playlist_sources[i].get_random_track();
                proof {
                    assert(pv[i as int].tracks.contains(t@));
                }
                return Some(t);
            }
            rnum = rnum - sw;
            i = i + 1;
        }
        proof {
            assert(pv.skip(pv.len() as int) =~= Seq::<PlaylistView>::empty());
            assert(lv.skip(0) =~= lv);
        }
        let mut j: usize = 0;
        while j < self.dynamic_library_sources.len()
            invariant
                0 <= j <= self.dynamic_library_sources@.len(),
                pv == self@.playlist_sources,
                lv == self@.library_sources,
                lv.len() == self.dynamic_library_sources@.len(),
                forall|k: int|
                    0 <= k < lv.len() ==> lv[k] == #[trigger] self.dynamic_library_sources@[k]@,
                0 < dyn_weight(self@) <= usize::MAX,
                1 <= rnum,
                rnum as nat <= sum_library_weights(lv.skip(j as int)),
            decreases self.dynamic_library_sources@.len() - j,
        {
            proof {
                lemma_sum_lib_skip(lv, j as int);
            }
            let sw = self.dynamic_library_sources[j].get_weight();
            if rnum <= sw {
                let t = self.dynamic_library_sources[j].get_random_track();
                proof {
                    assert(lv[j as int].tracks.contains(t@));
                }
                return Some(t);
            }
            rnum = rnum - sw;
            j = j + 1;
        }
        // The draw is at most the total weight, so a source is always hit
        // before the walk runs out.
        proof {
            assert(lv.skip(lv.len() as int) =~= Seq::<LibraryView>::empty());
            assert(sum_library_weights(Seq::<LibraryView>::empty()) == 0);
            assert(false);
        }
        None
    }

    /// The first source track that is not in the anti-repeat window, if
    /// any track at all is outside it.
    fn find_fresh_candidate(&self) -> (r: Option<Track>)
        ensures
            match r {
                Some(t) => is_candidate(self@, t@) && !self@.window.contains(t@),
                None => all_candidates_in_window(self@),
            },
    {
        proof {
            lemma_views_of_playlists_index(self.dynamic_playlist_sources@);
        }
        let ghost pv = self@.playlist_sources;
        let ghost lv = self@.library_sources;
        let mut si: usize = 0;
        while si < self.dynamic_playlist_sources.len()
            invariant
                0 <= si <= self.dynamic_playlist_sources@.len(),
                pv == self@.playlist_sources,
                lv == self@.library_sources,
                pv.len() == self.dynamic_playlist_sources@.len(),
                forall|j: int|
                    0 <= j < pv.len() ==> pv[j] == playlist_view(
                        #[trigger] self.dynamic_playlist_sources@[j],
                    ),
                forall|a: int, b: int|
                    0 <= a < si && 0 <= b < pv[a].tracks.len() ==> self@.window.contains(
                        #[trigger] pv[a].tracks[b],
                    ),
            decreases self.dynamic_playlist_sources@.len() - si,
        {
            let src = &self.dynamic_playlist_sources[si];
            let mut ti: usize = 0;
            while ti < src.tracks.len()
                invariant
                    0 <= ti <= src.tracks@.len(),
                    src == self.dynamic_playlist_sources@[si as int],
                    0 <= si < pv.len(),
                    pv == self@.playlist_sources,
                    pv[si as int] == playlist_view(*src),
                    forall|b: int|
                        0 <= b < ti ==> self@.window.contains(
                            #[trigger] pv[si as int].tracks[b],
                        ),
                decreases src.tracks@.len() - ti,
            {
                let t = &src.tracks[ti];
                if !window_contains(&self.window, t) {
                    let c = t.clone();
                    proof {
                        assert(pv[si as int].tracks[ti as int] == c@);
                        assert(pv[si as int].tracks.contains(c@));
                    }
                    return Some(c);
                }
                ti = ti + 1;
            }
            si = si + 1;
        }
        let mut li: usize = 0;
        while li < self.dynamic_library_sources.len()
            invariant
                0 <= li <= self.dynamic_library_sources@.len(),
                pv == self@.playlist_sources,
                lv == self@.library_sources,
                lv.len() == self.dynamic_library_sources@.len(),
                forall|k: int|
                    0 <= k < lv.len() ==> lv[k] == #[trigger] self.dynamic_library_sources@[k]@,
                forall|a: int, b: int|
                    0 <= a < pv.len() && 0 <= b < pv[a].tracks.len() ==> self@.window.contains(
                        #[trigger] pv[a].tracks[b],
                    ),
                forall|a: int, b: int|
                    0 <= a < li && 0 <= b < lv[a].tracks.len() ==> self@.window.contains(
                        #[trigger] lv[a].tracks[b],
                    ),
            decreases self.dynamic_library_sources@.len() - li,
        {
            let src = &self.dynamic_library_sources[li];
            let tracks = src.get_tracks();
            let mut ti: usize = 0;
            while ti < tracks.len()
                invariant
                    0 <= ti <= tracks@.len(),
                    0 <= li < lv.len(),
                    lv == self@.library_sources,
                    tracks.deep_view() == lv[li as int].tracks,
                    forall|b: int|
                        0 <= b < ti ==> self@.window.contains(
                            #[trigger] lv[li as int].tracks[b],
                        ),
                decreases tracks@.len() - ti,
            {
                let t = &tracks[ti];
                if !window_contains(&self.window, t) {
                    let c = t.clone();
                    proof {
                        assert(lv[li as int].tracks[ti as int] == c@);
                        assert(lv[li as int].tracks.contains(c@));
                    }
                    return Some(c);
                }
                ti = ti + 1;
            }
            li = li + 1;
        }
        proof {
            assert forall|t: TrackView| #[trigger] is_candidate(self@, t) implies
                self@.window.contains(t) by {
                if exists|a: int| 0 <= a < pv.len() && pv[a].tracks.contains(t) {
                    let a = choose|a: int| 0 <= a < pv.len() && pv[a].tracks.contains(t);
                    let b = choose|b: int| 0 <= b < pv[a].tracks.len() && pv[a].tracks[b] == t;
                    assert(self@.window.contains(pv[a].tracks[b]));
                } else {
                    let a = choose|a: int| 0 <= a < lv.len() && lv[a].tracks.contains(t);
                    let b = choose|b: int| 0 <= b < lv[a].tracks.len() && lv[a].tracks[b] == t;
                    assert(self@.window.contains(lv[a].tracks[b]));
                }
            }
        }
        None
    }

    /// Record a generated track in the anti-repeat window, evicting the
    /// oldest entry when the window outgrows its size.
    fn add_to_window(&mut self, track: Track)
        ensures
            final(self)@ == (PlaylistView {
                window: window_push(
                    old(self)@.window,
                    track@,
                    window_size_of(dyn_weight(old(self)@)),
                ),
                ..old(self)@
            }),
    {
        self.window.push(track);
        proof {
            assert(self.window.deep_view() =~= old(self)@.window.push(
                self.window.deep_view().last(),
            ));
        }
        let cap = self.get_window_size();
        if self.window.len() > cap {
            let ghost before = self.window.deep_view();
            self.window.remove(0);
            proof {
                assert(self.window.deep_view() =~= before.drop_first());
            }
        }
    }

    /// Advance the cursor and return the track it lands on. Within the
    /// static range the playlist replays its tracks in order. Past the
    /// end, a track is generated from the weighted dynamic sources,
    /// appended permanently, and returned; with no source weight the
    /// playlist is exhausted and yields nothing. A generated track avoids
    /// the anti-repeat window whenever any candidate lies outside it.
    pub fn next(&mut self) -> (r: Option<Track>)
        requires
            pl_wf(old(self)@),
            dyn_weight(old(self)@) <= usize::MAX,
        ensures
            pl_wf(final(self)@),
            next_rel(old(self)@, final(self)@, opt_track_view(r)),
    {
        let len = self.tracks.len();
        let np = match self.pos {
            None => 0usize,
            Some(p) => if p < len {
                p + 1
            } else {
                len
            },
        };
        self.pos = Some(np);
        proof {
            assert(self@ =~= (PlaylistView { pos: Some(np as int), ..old(self)@ }));
        }
        if np < len {
            let t = self.tracks[np].clone();
            return Some(t);
        }
        let first = match self.get_random_next_track() {
            None => {
                return None;
            },
            Some(t) => t,
        };
        let mut chosen = first;
        if window_contains(&self.window, &chosen) {
            // Retry the draw a bounded number of times; if chance keeps
            // hitting the window, fall back to a deterministic scan, and
            // only when every candidate is in the window accept the
            // repeat.
            let mut tries: usize = 0;
            let mut fresh = false;
            while tries < 64 && !fresh
                invariant
                    0 < dyn_weight(self@) <= usize::MAX,
                    is_candidate(self@, chosen@),
                    fresh ==> !self@.window.contains(chosen@),
                decreases 64 - tries,
            {
                match self.get_random_next_track() {
                    Some(c) => {
                        if !window_contains(&self.window, &c) {
                            chosen = c;
                            fresh = true;
                        }
                    },
                    None => {
                        proof {
                            assert(false);
                        }
                    },
                }
                tries = tries + 1;
            }
            if !fresh {
                match self.find_fresh_candidate() {
                    Some(c) => {
                        chosen = c;
                    },
                    None => {
                        // Degenerate: every candidate repeats; accept it.
                    },
                }
            }
        }
        let ghost s1 = self@;
        self.add_to_window(chosen.clone());
        self.add_track(chosen.clone());
        proof {
            assert(self@.tracks == old(self)@.tracks.push(chosen@));
            assert(self@.window == window_push(
                old(self)@.window,
                chosen@,
                window_size_of(dyn_weight(old(self)@)),
            ));
            assert(self@.pos == Some(np as int));
            if s1.window.contains(chosen@) {
                assert(all_candidates_in_window(s1));
                assert forall|t: TrackView| #[trigger] is_candidate(old(self)@, t) implies old(
                    self,
                )@.window.contains(t) by {
                    assert(is_candidate(s1, t));
                }
            }
        }
        Some(chosen)
    }
}

/// The saved form of the cursor: empty when unset, decimal otherwise.
pub open spec fn pos_chars(pos: Option<int>) -> Seq<char> {
    match pos {
        None => Seq::empty(),
        Some(p) => dec_chars(p),
    }
}

/// What loading saved playlist data yields: the name, the saved cursor and
/// the tracks, or the exact fault. The cursor must be empty or a number no
/// larger than the track count.
pub open spec fn load_playlist_spec(s: Seq<char>) -> Result<
    (Seq<char>, Option<int>, Seq<TrackView>),
    FormatError,
> {
    match load_save_spec(s) {
        Err(e) => Err(e),
        Ok((name, second, ts)) => {
            if second.len() == 0 {
                Ok((name, None, ts))
            } else if all_digits(second) && dec_val(second) <= usize::MAX as int && dec_val(second)
                <= ts.len() as int {
                Ok((name, Some(dec_val(second)), ts))
            } else {
                Err(FormatError::BadPosition)
            }
        },
    }
}

/// Saving a playlist and loading the data back yields the name, cursor
/// and tracks it was saved from, whenever the fields are free of the
/// reserved separators and the cursor lies within the track list.
pub proof fn lemma_playlist_save_round_trip(
    name: Seq<char>,
    pos: Option<int>,
    ts: Seq<TrackView>,
)
    requires
        clean_field(name),
        forall|i: int| 0 <= i < ts.len() ==> clean_track(#[trigger] ts[i]),
        match pos {
            Some(p) => 0 <= p <= ts.len() && p <= usize::MAX,
            None => true,
        },
    ensures
        load_playlist_spec(save_chars(name, pos_chars(pos), ts)) == Ok::<
            (Seq<char>, Option<int>, Seq<TrackView>),
            FormatError,
        >((name, pos, ts)),
{
    let second = pos_chars(pos);
    match pos {
        Some(p) => {
            lemma_dec_chars_val(p);
            assert forall|i: int| 0 <= i < second.len() implies second[i]
                != crate::delimiters::END_OF_FIELD && second[i] != crate::delimiters::END_OF_RECORD
                && second[i] != crate::delimiters::END_OF_HEADER by {
                assert(is_digit(second[i]));
            }
        },
        None => {},
    }
    lemma_parse_save_round(name, second, ts);
    lemma_load_save_matches(save_chars(name, second, ts));
    match load_save_spec(save_chars(name, second, ts)) {
        Ok(v) => {},
        Err(_) => {
            assert(false);
        },
    }
}

impl Playlist {
    /// The file extension a saved playlist carries.
    pub fn get_extension(&self) -> (r: &'static str)
        ensures
            r@ == "playlist"@,
    {
        "playlist"
    }

    /// The save header of a playlist: its name and its cursor in decimal,
    /// or an empty second field when the cursor is unset.
    pub fn get_header(&self) -> (r: String)
        ensures
            r@ == header_chars(self@.name, pos_chars(self@.pos)),
    {
        let mut r = String::new();
        r.append(self.name.as_str());
        r.append(field_sep_str());
        match self.pos {
            Some(p) => {
                let digits = format_usize(p);
                r.append(digits.as_str());
            },
            None => {},
        }
        r.append(header_sep_str());
        proof {
            assert(r@ =~= header_chars(self@.name, pos_chars(self@.pos)));
        }
        r
    }

    /// The full save data of a playlist: header, then one record per
    /// track in current order. The window and the dynamic sources are
    /// never persisted.
    pub fn dump(&self) -> (r: String)
        ensures
            r@ == save_chars(self@.name, pos_chars(self@.pos), self@.tracks),
    {
        let mut r = self.get_header();
        let body = render_tracks(&self.tracks);
        r.append(body.as_str());
        r
    }

    /// Read a playlist back from save data. Fails, returning no partial
    /// result, when the header, a record or the saved cursor is
    /// malformed. The loaded playlist has no window and no dynamic
    /// sources.
    pub fn load(data: String) -> (r: Result<Playlist, FormatError>)
        ensures
            match r {
                Ok(p) => {
                    &&& load_playlist_spec(data@) == Ok::<
                        (Seq<char>, Option<int>, Seq<TrackView>),
                        FormatError,
                    >((p@.name, p@.pos, p@.tracks))
                    &&& p@.window == Seq::<TrackView>::empty()
                    &&& p@.playlist_sources == Seq::<PlaylistView>::empty()
                    &&& p@.library_sources == Seq::<LibraryView>::empty()
                    &&& pl_wf(p@)
                },
                Err(e) => load_playlist_spec(data@) == Err::<
                    (Seq<char>, Option<int>, Seq<TrackView>),
                    FormatError,
                >(e),
            },
    {
        let (name, pos_str) = match process_save_header(data.as_str()) {
            Ok(p) => p,
            Err(e) => {
                return Err(e);
            },
        };
        let tracks = match load_tracks(data.as_str()) {
            Ok(v) => v,
            Err(e) => {
                return Err(e);
            },
        };
        let pos: Option<usize> = if pos_str.as_str().unicode_len() == 0 {
            None
        } else {
            match parse_usize(pos_str.as_str()) {
                None => {
                    return Err(FormatError::BadPosition);
                },
                Some(p) => {
                    if p > tracks.len() {
                        return Err(FormatError::BadPosition);
                    }
                    Some(p)
                },
            }
        };
        let r = Playlist {
            name,
            tracks,
            window: Vec::new(),
            dynamic_playlist_sources: Vec::new(),
            dynamic_library_sources: Vec::new(),
            pos,
        };
        proof {
            assert(r@.window =~= Seq::<TrackView>::empty());
            assert(r@.playlist_sources =~= Seq::<PlaylistView>::empty());
            assert(r@.library_sources =~= Seq::<LibraryView>::empty());
        }
        Ok(r)
    }
}

impl Clone for Playlist {
    /// A copy of the playlist with the same mathematical value.
    fn clone(&self) -> (r: Self)
        ensures
            r@ == self@,
        decreases *self,
    {
        proof {
            assert(decreases_to!(*self => self.dynamic_playlist_sources));
        }
        let r = Playlist {
            name: self.name.clone(),
            tracks: clone_tracks(&self.tracks),
            window: clone_tracks(&self.window),
            dynamic_playlist_sources: clone_playlists(&self.dynamic_playlist_sources),
            dynamic_library_sources: clone_libraries(&self.dynamic_library_sources),
            pos: self.pos,
        };
        proof {
            assert(r@ =~= self@);
        }
        r
    }
}

} // verus!
