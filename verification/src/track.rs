use vstd::prelude::*;

use crate::delimiters::{field_sep_str, record_sep_str, END_OF_FIELD, END_OF_RECORD};
use crate::shared::{find_char, load_track_spec, record_chars, split_on, FormatError};
use crate::text::{cmp_str, lemma_lex_connected, lemma_lex_le_trans, lemma_lex_lt_trans, lex_le,
    lex_lt};
use core::cmp::Ordering;

verus! {

/// One playable item: immutable metadata describing a single audio file.
/// The track number is a string, not a number, because real releases carry
/// labels such as "2.1" for hidden tracks.
pub struct Track {
    pub track_name: String,
    pub artist: String,
    pub album: String,
    pub track_number: String,
    pub path: String,
}

/// The mathematical value of a `Track`: its five fields as character
/// sequences.
#[verifier::ext_equal]
pub struct TrackView {
    pub track_name: Seq<char>,
    pub artist: Seq<char>,
    pub album: Seq<char>,
    pub track_number: Seq<char>,
    pub path: Seq<char>,
}

impl View for Track {
    type V = TrackView;

    open spec fn view(&self) -> TrackView {
        TrackView {
            track_name: self.track_name@,
            artist: self.artist@,
            album: self.album@,
            track_number: self.track_number@,
            path: self.path@,
        }
    }
}

impl DeepView for Track {
    type V = TrackView;

    open spec fn deep_view(&self) -> TrackView {
        self@
    }
}

/// Track equality is structural over all five fields.
impl PartialEq for Track {
    fn eq(&self, other: &Self) -> (r: bool) {
        self.track_name == other.track_name && self.artist == other.artist && self.album
            == other.album && self.track_number == other.track_number && self.path == other.path
    }
}

impl vstd::std_specs::cmp::PartialEqSpecImpl for Track {
    open spec fn obeys_eq_spec() -> bool {
        true
    }

    open spec fn eq_spec(&self, other: &Track) -> bool {
        self@ == other@
    }
}

impl Clone for Track {
    fn clone(&self) -> (r: Self)
        ensures
            r@ == self@,
    {
        Track {
            track_name: self.track_name.clone(),
            artist: self.artist.clone(),
            album: self.album.clone(),
            track_number: self.track_number.clone(),
            path: self.path.clone(),
        }
    }
}

/// Two track values are equal exactly when every one of the five fields
/// agrees; changing any single field breaks equality.
pub proof fn lemma_track_eq_is_fieldwise(a: TrackView, b: TrackView)
    ensures
        (a == b) <==> (a.track_name == b.track_name && a.artist == b.artist && a.album == b.album
            && a.track_number == b.track_number && a.path == b.path),
{
    if a.track_name == b.track_name && a.artist == b.artist && a.album == b.album
        && a.track_number == b.track_number && a.path == b.path {
        assert(a =~= b);
    }
}

/// The title ordering: by track name, ties broken by artist; tracks that
/// agree on both keys are tied.
pub open spec fn by_title_le(a: TrackView, b: TrackView) -> bool {
    lex_lt(a.track_name, b.track_name) || (a.track_name == b.track_name && lex_le(
        a.artist,
        b.artist,
    ))
}

/// The artist ordering: by artist, then album, then track number, then
/// track name, each comparison breaking the previous tie.
pub open spec fn by_artist_album_le(a: TrackView, b: TrackView) -> bool {
    lex_lt(a.artist, b.artist) || (a.artist == b.artist && (lex_lt(a.album, b.album) || (a.album
        == b.album && (lex_lt(a.track_number, b.track_number) || (a.track_number == b.track_number
        && lex_le(a.track_name, b.track_name))))))
}

/// The title ordering is total: any two tracks are comparable, it is
/// transitive, and two tracks each at most the other agree on the
/// (track name, artist) key.
pub proof fn lemma_by_title_total_order(a: TrackView, b: TrackView, c: TrackView)
    ensures
        by_title_le(a, a),
        by_title_le(a, b) || by_title_le(b, a),
        by_title_le(a, b) && by_title_le(b, c) ==> by_title_le(a, c),
        by_title_le(a, b) && by_title_le(b, a) ==> a.track_name == b.track_name && a.artist
            == b.artist,
{
    lemma_lex_connected(a.track_name, a.track_name);
    lemma_lex_connected(a.artist, a.artist);
    lemma_lex_connected(a.track_name, b.track_name);
    lemma_lex_connected(a.artist, b.artist);
    lemma_lex_connected(b.track_name, c.track_name);
    lemma_lex_connected(a.track_name, c.track_name);
    if by_title_le(a, b) && by_title_le(b, c) {
        if lex_lt(a.track_name, b.track_name) && lex_lt(b.track_name, c.track_name) {
            lemma_lex_lt_trans(a.track_name, b.track_name, c.track_name);
        }
        if a.track_name == b.track_name && b.track_name == c.track_name {
            lemma_lex_le_trans(a.artist, b.artist, c.artist);
        }
    }
}

/// The artist ordering is total and transitive in the same way; two tracks
/// each at most the other agree on all four comparison keys.
pub proof fn lemma_by_artist_album_total_order(a: TrackView, b: TrackView, c: TrackView)
    ensures
        by_artist_album_le(a, a),
        by_artist_album_le(a, b) || by_artist_album_le(b, a),
        by_artist_album_le(a, b) && by_artist_album_le(b, c) ==> by_artist_album_le(a, c),
        by_artist_album_le(a, b) && by_artist_album_le(b, a) ==> a.artist == b.artist && a.album
            == b.album && a.track_number == b.track_number && a.track_name == b.track_name,
{
    lemma_lex_connected(a.artist, a.artist);
    lemma_lex_connected(a.album, a.album);
    lemma_lex_connected(a.track_number, a.track_number);
    lemma_lex_connected(a.track_name, a.track_name);
    lemma_lex_connected(a.artist, b.artist);
    lemma_lex_connected(a.album, b.album);
    lemma_lex_connected(a.track_number, b.track_number);
    lemma_lex_connected(a.track_name, b.track_name);
    lemma_lex_connected(b.artist, c.artist);
    lemma_lex_connected(b.album, c.album);
    lemma_lex_connected(b.track_number, c.track_number);
    lemma_lex_connected(b.track_name, c.track_name);
    lemma_lex_connected(a.artist, c.artist);
    lemma_lex_connected(a.album, c.album);
    lemma_lex_connected(a.track_number, c.track_number);
    lemma_lex_connected(a.track_name, c.track_name);
    if by_artist_album_le(a, b) && by_artist_album_le(b, c) {
        if lex_lt(a.artist, b.artist) && lex_lt(b.artist, c.artist) {
            lemma_lex_lt_trans(a.artist, b.artist, c.artist);
        }
        if a.artist == b.artist && b.artist == c.artist {
            if lex_lt(a.album, b.album) && lex_lt(b.album, c.album) {
                lemma_lex_lt_trans(a.album, b.album, c.album);
            }
            if a.album == b.album && b.album == c.album {
                if lex_lt(a.track_number, b.track_number) && lex_lt(
                    b.track_number,
                    c.track_number,
                ) {
                    lemma_lex_lt_trans(a.track_number, b.track_number, c.track_number);
                }
                if a.track_number == b.track_number && b.track_number == c.track_number {
                    lemma_lex_le_trans(a.track_name, b.track_name, c.track_name);
                }
            }
        }
    }
}

impl Track {
    /// Serialize this track as one record of the save format: the five
    /// fields joined by the field separator, closed by the record
    /// separator.
    pub fn dump(&self) -> (r: String)
        ensures
            r@ == record_chars(self@),
    {
        let mut r = String::new();
        r.append(self.track_name.as_str());
        r.append(field_sep_str());
        r.append(self.artist.as_str());
        r.append(field_sep_str());
        r.append(self.album.as_str());
        r.append(field_sep_str());
        r.append(self.track_number.as_str());
        r.append(field_sep_str());
        r.append(self.path.as_str());
        r.append(record_sep_str());
        proof {
            assert(r@ =~= record_chars(self@));
        }
        r
    }

    /// Read one track back from a full record: exactly five fields before
    /// the record separator, which must close the data.
    pub fn load(data: String) -> (r: Result<Track, FormatError>)
        ensures
            match r {
                Ok(t) => load_track_spec(data@) == Ok::<TrackView, FormatError>(t@),
                Err(e) => load_track_spec(data@) == Err::<TrackView, FormatError>(e),
            },
    {
        let s = data.as_str();
        let n = s.unicode_len();
        match find_char(s, END_OF_RECORD) {
            None => Err(FormatError::MissingRecordEnd),
            Some(e) => {
                if e + 1 != n {
                    Err(FormatError::TrailingData)
                } else {
                    let body = s.substring_char(0, e);
                    proof {
                        assert(body@ =~= data@.take(e as int));
                    }
                    let parts = split_on(body, END_OF_FIELD);
                    if parts.len() != 5 {
                        Err(FormatError::WrongFieldCount)
                    } else {
                        let t = Track {
                            track_name: parts[0].clone(),
                            artist: parts[1].clone(),
                            album: parts[2].clone(),
                            track_number: parts[3].clone(),
                            path: parts[4].clone(),
                        };
                        proof {
                            assert(t@ =~= (match load_track_spec(data@) {
                                Ok(tv) => tv,
                                Err(_) => t@,
                            }));
                        }
                        Ok(t)
                    }
                }
            },
        }
    }

    /// Compare by track name, artist breaking ties. A pair that is ordered
    /// by this comparison never compares `Equal`: ties within the key give
    /// `Less`.
    pub fn order_by_track(&self, other: &Self) -> (o: Ordering)
        ensures
            o == (if by_title_le(self@, other@) {
                Ordering::Less
            } else {
                Ordering::Greater
            }),
    {
        match cmp_str(self.track_name.as_str(), other.track_name.as_str()) {
            Ordering::Greater => Ordering::Greater,
            Ordering::Less => Ordering::Less,
            Ordering::Equal => {
                // Artist name breaks ties
                match cmp_str(self.artist.as_str(), other.artist.as_str()) {
                    Ordering::Greater => Ordering::Greater,
                    _ => Ordering::Less,
                }
            },
        }
    }

    /// Compare by artist, album, track number and finally track name, each
    /// breaking the previous tie. Ties within the full key give `Less`.
    pub fn order_by_artist_and_album(&self, other: &Self) -> (o: Ordering)
        ensures
            o == (if by_artist_album_le(self@, other@) {
                Ordering::Less
            } else {
                Ordering::Greater
            }),
    {
        match cmp_str(self.artist.as_str(), other.artist.as_str()) {
            Ordering::Greater => Ordering::Greater,
            Ordering::Less => Ordering::Less,
            Ordering::Equal => {
                // Same artist
                match cmp_str(self.album.as_str(), other.album.as_str()) {
                    Ordering::Greater => Ordering::Greater,
                    Ordering::Less => Ordering::Less,
                    Ordering::Equal => {
                        // Same album
                        match cmp_str(
                            self.track_number.as_str(),
                            other.track_number.as_str(),
                        ) {
                            Ordering::Greater => Ordering::Greater,
                            Ordering::Less => Ordering::Less,
                            Ordering::Equal => {
                                // Somebody forgot to put track numbers down;
                                // the track name breaks ties here.
                                match cmp_str(
                                    self.track_name.as_str(),
                                    other.track_name.as_str(),
                                ) {
                                    Ordering::Greater => Ordering::Greater,
                                    _ => Ordering::Less,
                                }
                            },
                        }
                    },
                }
            },
        }
    }
}

} // verus!
