use vstd::prelude::*;

use crate::delimiters::{field_sep_str, header_sep_str};
use crate::rng::random_in_range;
use crate::shared::{load_save_spec, load_tracks, process_save_header, render_tracks, save_chars,
    FormatError};
use crate::track::{by_artist_album_le, by_title_le, lemma_by_artist_album_total_order,
    lemma_by_title_total_order, Track, TrackView};
use core::cmp::Ordering;
use vstd::relations::sorted_by;
use vstd::seq_lib::group_to_multiset_ensures;
use vstd::seq_lib::lemma_multiset_commutative;

verus! {

/// A scanned, read-only pool of tracks: a name, the root path it was
/// scanned from, and the tracks in scan order.
pub struct MusicLibrary {
    name: String,
    path: String,
    tracks: Vec<Track>,
}

/// The mathematical value of a library.
#[verifier::ext_equal]
pub struct LibraryView {
    pub name: Seq<char>,
    pub path: Seq<char>,
    pub tracks: Seq<TrackView>,
}

impl View for MusicLibrary {
    type V = LibraryView;

    closed spec fn view(&self) -> LibraryView {
        LibraryView { name: self.name@, path: self.path@, tracks: self.tracks.deep_view() }
    }
}

/// Copy a track list; the copy has the same mathematical value.
pub(crate) fn clone_tracks(v: &Vec<Track>) -> (r: Vec<Track>)
    ensures
        r.deep_view() == v.deep_view(),
{
    let r = v.clone();
    proof {
        assert(r.deep_view() =~= v.deep_view());
    }
    r
}

/// The ordering a sort uses: by title when `by_title` holds, else by
/// artist and album.
pub open spec fn le_for(by_title: bool, a: TrackView, b: TrackView) -> bool {
    if by_title {
        by_title_le(a, b)
    } else {
        by_artist_album_le(a, b)
    }
}

/// Both orderings are reflexive, total and transitive.
proof fn lemma_le_for_total(by_title: bool, a: TrackView, b: TrackView, c: TrackView)
    ensures
        le_for(by_title, a, a),
        le_for(by_title, a, b) || le_for(by_title, b, a),
        le_for(by_title, a, b) && le_for(by_title, b, c) ==> le_for(by_title, a, c),
{
    if by_title {
        lemma_by_title_total_order(a, b, c);
    } else {
        lemma_by_artist_album_total_order(a, b, c);
    }
}

/// Decide the chosen ordering between two tracks.
fn le_exec(by_title: bool, a: &Track, b: &Track) -> (r: bool)
    ensures
        r == le_for(by_title, a@, b@),
{
    let o = if by_title {
        a.order_by_track(b)
    } else {
        a.order_by_artist_and_album(b)
    };
    match o {
        Ordering::Greater => false,
        _ => true,
    }
}

/// Inserting an element anywhere in a sequence adds it, and nothing else,
/// to the sequence's multiset.
proof fn lemma_insert_multiset(s: Seq<TrackView>, k: int, x: TrackView)
    requires
        0 <= k <= s.len(),
    ensures
        (s.take(k).push(x) + s.skip(k)).to_multiset() == s.to_multiset().insert(x),
{
    broadcast use group_to_multiset_ensures;
    broadcast use vstd::multiset::group_multiset_axioms;

    assert(s =~= s.take(k) + s.skip(k));
    lemma_multiset_commutative(s.take(k).push(x), s.skip(k));
    lemma_multiset_commutative(s.take(k), s.skip(k));
    assert((s.take(k).push(x) + s.skip(k)).to_multiset() =~= s.to_multiset().insert(x));
}

/// Sort a copy of the tracks by the chosen ordering: the result is sorted
/// and holds exactly the same tracks.
fn sort_tracks(tracks: &Vec<Track>, by_title: bool) -> (r: Vec<Track>)
    ensures
        forall|p: int, q: int|
            0 <= p < q < r.deep_view().len() ==> le_for(
                by_title,
                #[trigger] r.deep_view()[p],
                #[trigger] r.deep_view()[q],
            ),
        r.deep_view().to_multiset() == tracks.deep_view().to_multiset(),
{
    broadcast use group_to_multiset_ensures;
    broadcast use vstd::multiset::group_multiset_axioms;

    let mut out: Vec<Track> = Vec::new();
    let mut i: usize = 0;
    proof {
        assert(out.deep_view() =~= Seq::<TrackView>::empty());
        assert(tracks.deep_view().take(0) =~= Seq::<TrackView>::empty());
    }
    while i < tracks.len()
        invariant
            0 <= i <= tracks.len(),
            forall|p: int, q: int|
                0 <= p < q < out.deep_view().len() ==> le_for(
                    by_title,
                    #[trigger] out.deep_view()[p],
                    #[trigger] out.deep_view()[q],
                ),
            out.deep_view().to_multiset() == tracks.deep_view().take(i as int).to_multiset(),
        decreases tracks.len() - i,
    {
        let t = tracks[i].clone();
        let mut k: usize = 0;
        while k < out.len() && le_exec(by_title, &out[k], &t)
            invariant
                0 <= k <= out.len(),
                forall|p: int| 0 <= p < k ==> le_for(by_title, #[trigger] out.deep_view()[p], t@),
            decreases out.len() - k,
        {
            k = k + 1;
        }
        proof {
            let dv = out.deep_view();
            if k < dv.len() {
                lemma_le_for_total(by_title, dv[k as int], t@, t@);
                assert(le_for(by_title, t@, dv[k as int]));
                assert forall|q: int| k < q < dv.len() implies le_for(by_title, t@, dv[q]) by {
                    assert(le_for(by_title, dv[k as int], dv[q]));
                    lemma_le_for_total(by_title, t@, dv[k as int], dv[q]);
                }
            }
        }
        let ghost old_out = out.deep_view();
        out.insert(k, t);
        proof {
            let dv = out.deep_view();
            assert(dv =~= old_out.take(k as int).push(t@) + old_out.skip(k as int));
            lemma_insert_multiset(old_out, k as int, t@);
            assert(dv.to_multiset() == old_out.to_multiset().insert(t@));
            assert forall|p: int, q: int| 0 <= p < q < dv.len() implies le_for(
                by_title,
                dv[p],
                dv[q],
            ) by {
                lemma_le_for_total(by_title, dv[p], dv[q], dv[q]);
                if p < k && q > k {
                    assert(dv[p] == old_out[p]);
                    assert(dv[q] == old_out[q - 1]);
                }
            }
            assert(tracks.deep_view().take(i + 1) =~= tracks.deep_view().take(i as int).push(
                tracks.deep_view()[i as int],
            ));
            vstd::seq_lib::to_multiset_build(tracks.deep_view().take(i as int), tracks.deep_view()[i as int]);
        }
        i = i + 1;
    }
    proof {
        assert(tracks.deep_view().take(i as int) =~= tracks.deep_view());
    }
    out
}

/// Saving a library and loading the data back yields the name, root path
/// and tracks it was saved from, whenever every field is free of the
/// reserved separators.
pub proof fn lemma_library_save_round_trip(name: Seq<char>, path: Seq<char>, ts: Seq<TrackView>)
    requires
        crate::shared::clean_field(name),
        crate::shared::clean_field(path),
        forall|i: int| 0 <= i < ts.len() ==> crate::shared::clean_track(#[trigger] ts[i]),
    ensures
        load_save_spec(save_chars(name, path, ts)) == Ok::<
            (Seq<char>, Seq<char>, Seq<TrackView>),
            FormatError,
        >((name, path, ts)),
{
    crate::shared::lemma_parse_save_round(name, path, ts);
    crate::shared::lemma_load_save_matches(save_chars(name, path, ts));
    match load_save_spec(save_chars(name, path, ts)) {
        Ok(v) => {},
        Err(_) => {
            assert(false);
        },
    }
}

impl MusicLibrary {
    /// The file extension a saved library carries.
    pub fn get_extension(&self) -> (r: &'static str)
        ensures
            r@ == "lib"@,
    {
        "lib"
    }

    /// A new, empty library rooted at `path`.
    pub fn new(name: String, path: String) -> (r: MusicLibrary)
        ensures
            r@.name == name@,
            r@.path == path@,
            r@.tracks == Seq::<TrackView>::empty(),
    {
        let r = MusicLibrary { name, path, tracks: Vec::new() };
        proof {
            assert(r@.tracks =~= Seq::<TrackView>::empty());
        }
        r
    }

    /// The library's name.
    pub fn get_name(&self) -> (r: &str)
        ensures
            r@ == self@.name,
    {
        self.name.as_str()
    }

    /// The root path the library scans.
    pub fn get_path(&self) -> (r: &str)
        ensures
            r@ == self@.path,
    {
        self.path.as_str()
    }

    /// A copy of the tracks, in scan order.
    pub fn get_tracks(&self) -> (r: Vec<Track>)
        ensures
            r.deep_view() == self@.tracks,
    {
        clone_tracks(&self.tracks)
    }

    /// A library's weight for scheduling is its track count.
    pub fn get_weight(&self) -> (w: usize)
        ensures
            w == self@.tracks.len(),
    {
        self.tracks.len()
    }

    /// One track drawn at random from the pool; the pool must not be
    /// empty. Which track comes back is chance; it is always one of the
    /// library's own.
    pub fn get_random_track(&self) -> (t: Track)
        requires
            self@.tracks.len() > 0,
        ensures
            self@.tracks.contains(t@),
    {
        let i = random_in_range(0, self.tracks.len() - 1);
        let t = self.tracks[i].clone();
        proof {
            assert(self@.tracks[i as int] == t@);
        }
        t
    }

    /// Record one scanned file. Title and artist are required: without
    /// both, nothing is added and the file is reported skipped by the
    /// result. Album and track number default to empty.
    pub fn add_track_details(
        &mut self,
        track_name: Option<String>,
        artist: Option<String>,
        album: Option<String>,
        track_number: Option<String>,
        path: String,
    ) -> (added: bool)
        ensures
            added == (track_name is Some && artist is Some),
            final(self)@.name == old(self)@.name,
            final(self)@.path == old(self)@.path,
            added ==> final(self)@.tracks == old(self)@.tracks.push(
                TrackView {
                    track_name: track_name->Some_0@,
                    artist: artist->Some_0@,
                    album: match album {
                        Some(a) => a@,
                        None => Seq::<char>::empty(),
                    },
                    track_number: match track_number {
                        Some(n) => n@,
                        None => Seq::<char>::empty(),
                    },
                    path: path@,
                },
            ),
            !added ==> final(self)@.tracks == old(self)@.tracks,
    {
        let name_val = match track_name {
            Some(n) => n,
            None => {
                return false;
            },
        };
        let artist_val = match artist {
            Some(a) => a,
            None => {
                return false;
            },
        };
        let album_val = match album {
            Some(a) => a,
            None => String::new(),
        };
        let number_val = match track_number {
            Some(n) => n,
            None => String::new(),
        };
        let t = Track {
            track_name: name_val,
            artist: artist_val,
            album: album_val,
            track_number: number_val,
            path,
        };
        self.tracks.push(t);
        proof {
            assert(self@.tracks =~= old(self)@.tracks.push(self@.tracks.last()));
        }
        true
    }

    /// The tracks ordered by title, artist breaking ties.
    pub fn get_tracks_by_title(&self) -> (r: Vec<Track>)
        ensures
            sorted_by(r.deep_view(), |a: TrackView, b: TrackView| by_title_le(a, b)),
            r.deep_view().to_multiset() == self@.tracks.to_multiset(),
    {
        let r = sort_tracks(&self.tracks, true);
        proof {
            let dv = r.deep_view();
            assert forall|i: int, j: int| 0 <= i < j < dv.len() implies (|a: TrackView,
                b: TrackView| by_title_le(a, b))(dv[i], dv[j]) by {
                assert(le_for(true, dv[i], dv[j]));
            }
        }
        r
    }

    /// The tracks ordered by artist, album, track number and title, each
    /// breaking the previous tie.
    pub fn get_tracks_by_artist_and_album(&self) -> (r: Vec<Track>)
        ensures
            sorted_by(r.deep_view(), |a: TrackView, b: TrackView| by_artist_album_le(a, b)),
            r.deep_view().to_multiset() == self@.tracks.to_multiset(),
    {
        let r = sort_tracks(&self.tracks, false);
        proof {
            let dv = r.deep_view();
            assert forall|i: int, j: int| 0 <= i < j < dv.len() implies (|a: TrackView,
                b: TrackView| by_artist_album_le(a, b))(dv[i], dv[j]) by {
                assert(le_for(false, dv[i], dv[j]));
            }
        }
        r
    }

    /// The save header of a library: its name and root path.
    pub fn get_header(&self) -> (r: String)
        ensures
            r@ == crate::shared::header_chars(self@.name, self@.path),
    {
        let mut r = String::new();
        r.append(self.name.as_str());
        r.append(field_sep_str());
        r.append(self.path.as_str());
        r.append(header_sep_str());
        proof {
            assert(r@ =~= crate::shared::header_chars(self@.name, self@.path));
        }
        r
    }

    /// The full save data of a library: header, then one record per track
    /// in current order.
    pub fn dump(&self) -> (r: String)
        ensures
            r@ == save_chars(self@.name, self@.path, self@.tracks),
    {
        let mut r = self.get_header();
        let body = render_tracks(&self.tracks);
        r.append(body.as_str());
        r
    }

    /// Read a library back from save data. Fails, returning no partial
    /// result, when the header or any record is malformed.
    pub fn load(data: String) -> (r: Result<MusicLibrary, FormatError>)
        ensures
            match r {
                Ok(lib) => load_save_spec(data@) == Ok::<
                    (Seq<char>, Seq<char>, Seq<TrackView>),
                    FormatError,
                >((lib@.name, lib@.path, lib@.tracks)),
                Err(e) => load_save_spec(data@) == Err::<
                    (Seq<char>, Seq<char>, Seq<TrackView>),
                    FormatError,
                >(e),
            },
    {
        let (name, path) = match process_save_header(data.as_str()) {
            Ok(p) => p,
            Err(e) => {
                return Err(e);
            },
        };
        let tracks = match load_tracks(data.as_str()) {
            Ok(v) => v,
            Err(e) => {
                return Err(e);
            },
        };
        Ok(MusicLibrary { name, path, tracks })
    }
}

impl Clone for MusicLibrary {
    /// A copy of the library with the same mathematical value.
    fn clone(&self) -> (r: Self)
        ensures
            r@ == self@,
    {
        let r = MusicLibrary {
            name: self.name.clone(),
            path: self.path.clone(),
            tracks: clone_tracks(&self.tracks),
        };
        proof {
            assert(r@ =~= self@);
        }
        r
    }
}

} // verus!
