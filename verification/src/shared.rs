use vstd::prelude::*;

use crate::delimiters::{END_OF_FIELD, END_OF_HEADER, END_OF_RECORD};
use crate::track::{Track, TrackView};

verus! {

/// A fault in a saved library or playlist: the load aborts with one of
/// these, and no partial result is returned.
#[derive(Clone, Copy, PartialEq, Eq, Structural, Debug)]
pub enum FormatError {
    /// The data has no header terminator.
    MissingHeader,
    /// The header does not consist of exactly two fields.
    MalformedHeader,
    /// A track record is not terminated.
    MissingRecordEnd,
    /// A track record has fewer or more than five fields.
    WrongFieldCount,
    /// Characters follow a record's terminator where none may.
    TrailingData,
    /// The saved playlist position is not a number the machine can hold,
    /// or lies beyond the saved track list.
    BadPosition,
}

/// Index of the first occurrence of `c` in `s`, if any.
pub open spec fn find_sep(s: Seq<char>, c: char) -> Option<int>
    decreases s.len(),
{
    if s.len() == 0 {
        None
    } else if s[0] == c {
        Some(0)
    } else {
        match find_sep(s.drop_first(), c) {
            None => None,
            Some(i) => Some(i + 1),
        }
    }
}

/// `s` split on every occurrence of `c`; always one part more than there
/// are separators.
pub open spec fn split_all(s: Seq<char>, c: char) -> Seq<Seq<char>>
    decreases s.len(),
{
    match find_sep(s, c) {
        None => seq![s],
        Some(i) => {
            if 0 <= i < s.len() {
                seq![s.take(i)] + split_all(s.skip(i + 1), c)
            } else {
                seq![s]
            }
        },
    }
}

/// What `find_sep` returns is the first occurrence, and `None` means there
/// is none.
pub proof fn lemma_find_sep_props(s: Seq<char>, c: char)
    ensures
        match find_sep(s, c) {
            Some(i) => 0 <= i < s.len() && s[i] == c && forall|j: int| 0 <= j < i ==> s[j] != c,
            None => forall|j: int| 0 <= j < s.len() ==> s[j] != c,
        },
    decreases s.len(),
{
    if s.len() > 0 && s[0] != c {
        lemma_find_sep_props(s.drop_first(), c);
        match find_sep(s.drop_first(), c) {
            Some(i) => {
                assert forall|j: int| 0 <= j < i + 1 implies s[j] != c by {
                    if j > 0 {
                        assert(s[j] == s.drop_first()[j - 1]);
                    }
                }
            },
            None => {
                assert forall|j: int| 0 <= j < s.len() implies s[j] != c by {
                    if j > 0 {
                        assert(s[j] == s.drop_first()[j - 1]);
                    }
                }
            },
        }
    }
}

/// A first occurrence at `i` pins `find_sep` down to `Some(i)`.
pub proof fn lemma_find_sep_at(s: Seq<char>, c: char, i: int)
    requires
        0 <= i < s.len(),
        s[i] == c,
        forall|j: int| 0 <= j < i ==> s[j] != c,
    ensures
        find_sep(s, c) == Some(i),
{
    lemma_find_sep_props(s, c);
    match find_sep(s, c) {
        Some(k) => {
            if k < i {
                assert(s[k] != c);
            }
            if i < k {
                assert(s[i] != c);
            }
        },
        None => {
            assert(s[i] != c);
        },
    }
}

/// Absence of `c` pins `find_sep` down to `None`.
pub proof fn lemma_find_sep_absent(s: Seq<char>, c: char)
    requires
        forall|j: int| 0 <= j < s.len() ==> s[j] != c,
    ensures
        find_sep(s, c) == None::<int>,
{
    lemma_find_sep_props(s, c);
    if let Some(i) = find_sep(s, c) {
        assert(s[i] != c);
    }
}

/// Index of the first occurrence of `c` in `s`, or `None` if `s` does not
/// contain it.
pub fn find_char(s: &str, c: char) -> (r: Option<usize>)
    ensures
        match r {
            Some(i) => i < s@.len() && find_sep(s@, c) == Some(i as int),
            None => find_sep(s@, c) == None::<int>,
        },
{
    let n = s.unicode_len();
    let mut i: usize = 0;
    while i < n
        invariant
            0 <= i <= n,
            n == s@.len(),
            forall|j: int| 0 <= j < i ==> s@[j] != c,
        decreases n - i,
    {
        if s.get_char(i) == c {
            proof {
                lemma_find_sep_at(s@, c, i as int);
            }
            return Some(i);
        }
        i = i + 1;
    }
    proof {
        lemma_find_sep_absent(s@, c);
    }
    None
}

/// A field may hold any character but the three reserved separators.
pub open spec fn clean_field(s: Seq<char>) -> bool {
    forall|i: int|
        0 <= i < s.len() ==> s[i] != END_OF_FIELD && s[i] != END_OF_RECORD && s[i]
            != END_OF_HEADER
}

/// All five fields of a track are free of the separators.
pub open spec fn clean_track(t: TrackView) -> bool {
    clean_field(t.track_name) && clean_field(t.artist) && clean_field(t.album) && clean_field(
        t.track_number,
    ) && clean_field(t.path)
}

/// The serialized form of one track: its five fields joined by the field
/// separator and closed by the record separator.
pub open spec fn record_chars(t: TrackView) -> Seq<char> {
    t.track_name + seq![END_OF_FIELD] + t.artist + seq![END_OF_FIELD] + t.album + seq![
        END_OF_FIELD,
    ] + t.track_number + seq![END_OF_FIELD] + t.path + seq![END_OF_RECORD]
}

/// The serialized forms of a track list, one record after the other.
pub open spec fn records_chars(ts: Seq<TrackView>) -> Seq<char>
    decreases ts.len(),
{
    if ts.len() == 0 {
        Seq::empty()
    } else {
        record_chars(ts[0]) + records_chars(ts.drop_first())
    }
}

/// The serialized header: two fields joined by the field separator and
/// closed by the header separator.
pub open spec fn header_chars(name: Seq<char>, second: Seq<char>) -> Seq<char> {
    name + seq![END_OF_FIELD] + second + seq![END_OF_HEADER]
}

/// A whole save file: the header, then the records.
pub open spec fn save_chars(name: Seq<char>, second: Seq<char>, ts: Seq<TrackView>) -> Seq<char> {
    header_chars(name, second) + records_chars(ts)
}

/// Parse one track record from the front of `s`: everything up to the first
/// record separator must consist of exactly five fields. Returns the track
/// and the remainder after the separator.
pub open spec fn parse_record(s: Seq<char>) -> Option<(TrackView, Seq<char>)> {
    match find_sep(s, END_OF_RECORD) {
        None => None,
        Some(e) => {
            let parts = split_all(s.take(e), END_OF_FIELD);
            if parts.len() == 5 {
                Some(
                    (
                        TrackView {
                            track_name: parts[0],
                            artist: parts[1],
                            album: parts[2],
                            track_number: parts[3],
                            path: parts[4],
                        },
                        s.skip(e + 1),
                    ),
                )
            } else {
                None
            }
        },
    }
}

/// Parse a whole body of track records; the body must be exactly a
/// sequence of well-formed records.
pub open spec fn parse_records(s: Seq<char>) -> Option<Seq<TrackView>>
    decreases s.len(),
    via parse_records_decreases
{
    if s.len() == 0 {
        Some(Seq::empty())
    } else {
        match parse_record(s) {
            None => None,
            Some((t, rest)) => match parse_records(rest) {
                None => None,
                Some(ts) => Some(seq![t] + ts),
            },
        }
    }
}

#[via_fn]
proof fn parse_records_decreases(s: Seq<char>) {
    lemma_find_sep_props(s, END_OF_RECORD);
}

/// Parse a header from the front of `s`: everything up to the first header
/// separator must consist of exactly two fields. Returns both fields and
/// the remainder after the separator.
pub open spec fn parse_header(s: Seq<char>) -> Option<(Seq<char>, Seq<char>, Seq<char>)> {
    match find_sep(s, END_OF_HEADER) {
        None => None,
        Some(h) => {
            let parts = split_all(s.take(h), END_OF_FIELD);
            if parts.len() == 2 {
                Some((parts[0], parts[1], s.skip(h + 1)))
            } else {
                None
            }
        },
    }
}

/// What loading a single full record yields: the track, or the exact
/// fault. The record separator must close the data, with nothing after it.
pub open spec fn load_track_spec(s: Seq<char>) -> Result<TrackView, FormatError> {
    match find_sep(s, END_OF_RECORD) {
        None => Err(FormatError::MissingRecordEnd),
        Some(e) => {
            if e + 1 != s.len() {
                Err(FormatError::TrailingData)
            } else {
                let parts = split_all(s.take(e), END_OF_FIELD);
                if parts.len() == 5 {
                    Ok(
                        TrackView {
                            track_name: parts[0],
                            artist: parts[1],
                            album: parts[2],
                            track_number: parts[3],
                            path: parts[4],
                        },
                    )
                } else {
                    Err(FormatError::WrongFieldCount)
                }
            }
        },
    }
}

/// What loading a body of records yields: the tracks, or the first fault.
pub open spec fn load_records_spec(s: Seq<char>) -> Result<Seq<TrackView>, FormatError>
    decreases s.len(),
    via load_records_spec_decreases
{
    if s.len() == 0 {
        Ok(Seq::empty())
    } else {
        match parse_record(s) {
            Some((t, rest)) => match load_records_spec(rest) {
                Ok(ts) => Ok(seq![t] + ts),
                Err(e) => Err(e),
            },
            None => {
                if find_sep(s, END_OF_RECORD) is None {
                    Err(FormatError::MissingRecordEnd)
                } else {
                    Err(FormatError::WrongFieldCount)
                }
            },
        }
    }
}

#[via_fn]
proof fn load_records_spec_decreases(s: Seq<char>) {
    lemma_find_sep_props(s, END_OF_RECORD);
}

/// The exact loader agrees with `parse_records`: it succeeds on the same
/// bodies and returns the same tracks.
pub proof fn lemma_load_records_matches(s: Seq<char>)
    ensures
        match load_records_spec(s) {
            Ok(ts) => parse_records(s) == Some(ts),
            Err(_) => parse_records(s) == None::<Seq<TrackView>>,
        },
    decreases s.len(),
{
    if s.len() > 0 {
        if let Some((t, rest)) = parse_record(s) {
            lemma_find_sep_props(s, END_OF_RECORD);
            lemma_load_records_matches(rest);
        }
    }
}

/// What loading a whole save file yields: name, second header field and
/// tracks, or the first fault.
pub open spec fn load_save_spec(s: Seq<char>) -> Result<
    (Seq<char>, Seq<char>, Seq<TrackView>),
    FormatError,
> {
    match find_sep(s, END_OF_HEADER) {
        None => Err(FormatError::MissingHeader),
        Some(h) => {
            let parts = split_all(s.take(h), END_OF_FIELD);
            if parts.len() != 2 {
                Err(FormatError::MalformedHeader)
            } else {
                match load_records_spec(s.skip(h + 1)) {
                    Ok(ts) => Ok((parts[0], parts[1], ts)),
                    Err(e) => Err(e),
                }
            }
        },
    }
}

/// The exact loader of a save file agrees with `parse_save`.
pub proof fn lemma_load_save_matches(s: Seq<char>)
    ensures
        match load_save_spec(s) {
            Ok(v) => parse_save(s) == Some(v),
            Err(_) => parse_save(s) == None::<(Seq<char>, Seq<char>, Seq<TrackView>)>,
        },
{
    if let Some(h) = find_sep(s, END_OF_HEADER) {
        lemma_load_records_matches(s.skip(h + 1));
    }
}

/// Parse a whole save file: header, then records.
pub open spec fn parse_save(s: Seq<char>) -> Option<(Seq<char>, Seq<char>, Seq<TrackView>)> {
    match parse_header(s) {
        None => None,
        Some((name, second, rest)) => match parse_records(rest) {
            None => None,
            Some(ts) => Some((name, second, ts)),
        },
    }
}

/// Splitting a separator-free sequence returns it whole.
pub proof fn lemma_split_all_single(a: Seq<char>, c: char)
    requires
        forall|i: int| 0 <= i < a.len() ==> a[i] != c,
    ensures
        split_all(a, c) == seq![a],
{
    lemma_find_sep_absent(a, c);
}

/// Splitting peels one separator-free part off the front.
pub proof fn lemma_split_all_prepend(a: Seq<char>, b: Seq<char>, c: char)
    requires
        forall|i: int| 0 <= i < a.len() ==> a[i] != c,
    ensures
        split_all(a + seq![c] + b, c) == seq![a] + split_all(b, c),
{
    let s = a + seq![c] + b;
    assert(s[a.len() as int] == c);
    assert(forall|j: int| 0 <= j < a.len() ==> s[j] == a[j]);
    lemma_find_sep_at(s, c, a.len() as int);
    assert(s.take(a.len() as int) =~= a);
    assert(s.skip(a.len() as int + 1) =~= b);
}

/// A record followed by anything parses back to the track it was made
/// from, with that remainder, as long as the fields are separator-free.
pub proof fn lemma_parse_record_round(t: TrackView, rest: Seq<char>)
    requires
        clean_track(t),
    ensures
        parse_record(record_chars(t) + rest) == Some((t, rest)),
{
    let body = t.track_name + seq![END_OF_FIELD] + t.artist + seq![END_OF_FIELD] + t.album + seq![
        END_OF_FIELD,
    ] + t.track_number + seq![END_OF_FIELD] + t.path;
    let s = record_chars(t) + rest;
    assert(s =~= body + seq![END_OF_RECORD] + rest);
    assert(forall|i: int| 0 <= i < body.len() ==> body[i] != END_OF_RECORD);
    assert(s[body.len() as int] == END_OF_RECORD);
    assert(forall|j: int| 0 <= j < body.len() ==> s[j] == body[j]);
    lemma_find_sep_at(s, END_OF_RECORD, body.len() as int);
    assert(s.take(body.len() as int) =~= body);
    assert(s.skip(body.len() as int + 1) =~= rest);
    let tail2 = t.artist + seq![END_OF_FIELD] + t.album + seq![END_OF_FIELD] + t.track_number
        + seq![END_OF_FIELD] + t.path;
    let tail3 = t.album + seq![END_OF_FIELD] + t.track_number + seq![END_OF_FIELD] + t.path;
    let tail4 = t.track_number + seq![END_OF_FIELD] + t.path;
    assert(body =~= t.track_name + seq![END_OF_FIELD] + tail2);
    lemma_split_all_prepend(t.track_name, tail2, END_OF_FIELD);
    assert(tail2 =~= t.artist + seq![END_OF_FIELD] + tail3);
    lemma_split_all_prepend(t.artist, tail3, END_OF_FIELD);
    assert(tail3 =~= t.album + seq![END_OF_FIELD] + tail4);
    lemma_split_all_prepend(t.album, tail4, END_OF_FIELD);
    assert(tail4 =~= t.track_number + seq![END_OF_FIELD] + t.path);
    lemma_split_all_prepend(t.track_number, t.path, END_OF_FIELD);
    lemma_split_all_single(t.path, END_OF_FIELD);
    let parts = split_all(body, END_OF_FIELD);
    assert(parts =~= seq![t.track_name, t.artist, t.album, t.track_number, t.path]);
    match parse_record(s) {
        Some((t2, rest2)) => {
            assert(t2 =~= t);
        },
        None => {
            assert(false);
        },
    }
}

/// A serialized track list parses back to itself when every field is
/// separator-free.
pub proof fn lemma_parse_records_round(ts: Seq<TrackView>)
    requires
        forall|i: int| 0 <= i < ts.len() ==> clean_track(#[trigger] ts[i]),
    ensures
        parse_records(records_chars(ts)) == Some(ts),
    decreases ts.len(),
{
    if ts.len() == 0 {
        assert(records_chars(ts).len() == 0);
    } else {
        let rest = records_chars(ts.drop_first());
        lemma_parse_record_round(ts[0], rest);
        lemma_parse_records_round(ts.drop_first());
        assert(records_chars(ts).len() > 0);
        assert(seq![ts[0]] + ts.drop_first() =~= ts);
    }
}

/// A serialized header parses back to its two fields and the remainder.
pub proof fn lemma_parse_header_round(name: Seq<char>, second: Seq<char>, rest: Seq<char>)
    requires
        clean_field(name),
        clean_field(second),
    ensures
        parse_header(header_chars(name, second) + rest) == Some((name, second, rest)),
{
    let head = name + seq![END_OF_FIELD] + second;
    let s = header_chars(name, second) + rest;
    assert(s =~= head + seq![END_OF_HEADER] + rest);
    assert(forall|i: int| 0 <= i < head.len() ==> head[i] != END_OF_HEADER);
    assert(s[head.len() as int] == END_OF_HEADER);
    assert(forall|j: int| 0 <= j < head.len() ==> s[j] == head[j]);
    lemma_find_sep_at(s, END_OF_HEADER, head.len() as int);
    assert(s.take(head.len() as int) =~= head);
    assert(s.skip(head.len() as int + 1) =~= rest);
    lemma_split_all_prepend(name, second, END_OF_FIELD);
    lemma_split_all_single(second, END_OF_FIELD);
}

/// A whole save file parses back to the values it was written from.
pub proof fn lemma_parse_save_round(name: Seq<char>, second: Seq<char>, ts: Seq<TrackView>)
    requires
        clean_field(name),
        clean_field(second),
        forall|i: int| 0 <= i < ts.len() ==> clean_track(#[trigger] ts[i]),
    ensures
        parse_save(save_chars(name, second, ts)) == Some((name, second, ts)),
{
    lemma_parse_header_round(name, second, records_chars(ts));
    lemma_parse_records_round(ts);
}

/// Serializing one more track appends its record.
pub proof fn lemma_records_chars_append_one(ts: Seq<TrackView>, t: TrackView)
    ensures
        records_chars(ts.push(t)) == records_chars(ts) + record_chars(t),
    decreases ts.len(),
{
    if ts.len() == 0 {
        assert(ts.push(t).drop_first() =~= Seq::<TrackView>::empty());
        assert(ts.push(t)[0] == t);
        assert(records_chars(Seq::<TrackView>::empty()) =~= Seq::<char>::empty());
        assert(records_chars(ts.push(t)) =~= record_chars(t));
        assert(records_chars(ts) + record_chars(t) =~= record_chars(t));
    } else {
        assert(ts.push(t).drop_first() =~= ts.drop_first().push(t));
        lemma_records_chars_append_one(ts.drop_first(), t);
        assert(records_chars(ts.push(t)) =~= records_chars(ts) + record_chars(t));
    }
}

/// Serialize a track list, one record after the other, in order.
pub fn render_tracks(tracks: &Vec<Track>) -> (r: String)
    ensures
        r@ == records_chars(tracks.deep_view()),
{
    let mut r = String::new();
    let mut i: usize = 0;
    while i < tracks.len()
        invariant
            0 <= i <= tracks.len(),
            r@ == records_chars(tracks.deep_view().take(i as int)),
        decreases tracks.len() - i,
    {
        let piece = tracks[i].dump();
        r.append(piece.as_str());
        proof {
            let dv = tracks.deep_view();
            assert(dv.take(i as int).push(dv[i as int]) =~= dv.take(i as int + 1));
            lemma_records_chars_append_one(dv.take(i as int), dv[i as int]);
        }
        i = i + 1;
    }
    proof {
        assert(tracks.deep_view().take(tracks.deep_view().len() as int) =~= tracks.deep_view());
    }
    r
}

/// What reading a save header yields: its two fields, or the exact fault.
pub open spec fn load_header_spec(s: Seq<char>) -> Result<(Seq<char>, Seq<char>), FormatError> {
    match find_sep(s, END_OF_HEADER) {
        None => Err(FormatError::MissingHeader),
        Some(h) => {
            let parts = split_all(s.take(h), END_OF_FIELD);
            if parts.len() == 2 {
                Ok((parts[0], parts[1]))
            } else {
                Err(FormatError::MalformedHeader)
            }
        },
    }
}

/// Read the save header: everything before the header separator, split
/// into exactly two fields.
pub fn process_save_header(data: &str) -> (r: Result<(String, String), FormatError>)
    ensures
        match r {
            Ok(p) => load_header_spec(data@) == Ok::<(Seq<char>, Seq<char>), FormatError>(
                (p.0@, p.1@),
            ),
            Err(e) => load_header_spec(data@) == Err::<(Seq<char>, Seq<char>), FormatError>(e),
        },
{
    match find_char(data, END_OF_HEADER) {
        None => Err(FormatError::MissingHeader),
        Some(h) => {
            let head = data.substring_char(0, h);
            proof {
                assert(head@ =~= data@.take(h as int));
            }
            let parts = split_on(head, END_OF_FIELD);
            if parts.len() != 2 {
                Err(FormatError::MalformedHeader)
            } else {
                Ok((parts[0].clone(), parts[1].clone()))
            }
        },
    }
}

/// What skipping the header and reading every record yields.
pub open spec fn load_tracks_spec(s: Seq<char>) -> Result<Seq<TrackView>, FormatError> {
    match find_sep(s, END_OF_HEADER) {
        None => Err(FormatError::MissingHeader),
        Some(h) => load_records_spec(s.skip(h + 1)),
    }
}

/// Read every record of a body of save data.
fn load_tracks_from(s: &str) -> (r: Result<Vec<Track>, FormatError>)
    ensures
        match r {
            Ok(v) => load_records_spec(s@) == Ok::<Seq<TrackView>, FormatError>(v.deep_view()),
            Err(e) => load_records_spec(s@) == Err::<Seq<TrackView>, FormatError>(e),
        },
    decreases s@.len(),
{
    let n = s.unicode_len();
    if n == 0 {
        let v: Vec<Track> = Vec::new();
        proof {
            assert(v.deep_view() =~= Seq::<TrackView>::empty());
        }
        return Ok(v);
    }
    match find_char(s, END_OF_RECORD) {
        None => Err(FormatError::MissingRecordEnd),
        Some(e) => {
            let chunk = s.substring_char(0, e + 1);
            let rest = s.substring_char(e + 1, n);
            proof {
                assert(chunk@ =~= s@.take(e as int + 1));
                assert(rest@ =~= s@.skip(e as int + 1));
                lemma_find_sep_props(s@, END_OF_RECORD);
                assert(forall|j: int| 0 <= j < e ==> chunk@[j] == s@[j]);
                lemma_find_sep_at(chunk@, END_OF_RECORD, e as int);
                assert(chunk@.take(e as int) =~= s@.take(e as int));
            }
            let t = match Track::load(String::from_str(chunk)) {
                Ok(t) => t,
                Err(err) => {
                    return Err(err);
                },
            };
            match load_tracks_from(rest) {
                Ok(mut v) => {
                    v.insert(0, t);
                    proof {
                        let ts = match load_records_spec(s@) {
                            Ok(ts) => ts,
                            Err(_) => Seq::empty(),
                        };
                        assert(v.deep_view() =~= ts);
                    }
                    Ok(v)
                },
                Err(err) => Err(err),
            }
        },
    }
}

/// Read every track of a save file, skipping its header.
pub fn load_tracks(data: &str) -> (r: Result<Vec<Track>, FormatError>)
    ensures
        match r {
            Ok(v) => load_tracks_spec(data@) == Ok::<Seq<TrackView>, FormatError>(v.deep_view()),
            Err(e) => load_tracks_spec(data@) == Err::<Seq<TrackView>, FormatError>(e),
        },
{
    let n = data.unicode_len();
    match find_char(data, END_OF_HEADER) {
        None => Err(FormatError::MissingHeader),
        Some(h) => {
            let rest = data.substring_char(h + 1, n);
            proof {
                assert(rest@ =~= data@.skip(h as int + 1));
            }
            load_tracks_from(rest)
        },
    }
}

// The playlist cursor is saved in decimal. The functions below give the
// decimal form of a number and read it back.

/// A decimal digit.
pub open spec fn is_digit(c: char) -> bool {
    '0' <= c && c <= '9'
}

/// The numeric value of a digit character.
pub open spec fn digit_val(c: char) -> int {
    c as int - 48
}

/// The digit character of a value below ten.
pub open spec fn digit_char(d: int) -> char {
    if d == 0 {
        '0'
    } else if d == 1 {
        '1'
    } else if d == 2 {
        '2'
    } else if d == 3 {
        '3'
    } else if d == 4 {
        '4'
    } else if d == 5 {
        '5'
    } else if d == 6 {
        '6'
    } else if d == 7 {
        '7'
    } else if d == 8 {
        '8'
    } else {
        '9'
    }
}

/// Every character of `s` is a decimal digit.
pub open spec fn all_digits(s: Seq<char>) -> bool {
    forall|i: int| 0 <= i < s.len() ==> is_digit(#[trigger] s[i])
}

/// The value of a digit string, most significant digit first.
pub open spec fn dec_val(s: Seq<char>) -> int
    decreases s.len(),
{
    if s.len() == 0 {
        0
    } else {
        dec_val(s.drop_last()) * 10 + digit_val(s.last())
    }
}

/// The decimal form of a non-negative number, without leading zeros.
pub open spec fn dec_chars(n: int) -> Seq<char>
    decreases n,
{
    if n < 10 {
        seq![digit_char(n)]
    } else {
        dec_chars(n / 10).push(digit_char(n % 10))
    }
}

/// The decimal form of a number is all digits and reads back to that
/// number.
pub proof fn lemma_dec_chars_val(n: int)
    requires
        n >= 0,
    ensures
        all_digits(dec_chars(n)),
        dec_chars(n).len() >= 1,
        dec_val(dec_chars(n)) == n,
    decreases n,
{
    if n < 10 {
        assert(dec_chars(n) =~= seq![digit_char(n)]);
        assert(seq![digit_char(n)].drop_last() =~= Seq::<char>::empty());
        assert(dec_val(Seq::<char>::empty()) == 0);
        assert(digit_val(digit_char(n)) == n);
        assert(dec_val(dec_chars(n)) == digit_val(digit_char(n)));
    } else {
        lemma_dec_chars_val(n / 10);
        vstd::arithmetic::div_mod::lemma_fundamental_div_mod(n, 10);
        let s = dec_chars(n);
        assert(s == dec_chars(n / 10).push(digit_char(n % 10)));
        assert(s.drop_last() =~= dec_chars(n / 10));
        assert(0 <= n % 10 < 10);
        assert(digit_val(digit_char(n % 10)) == n % 10);
        assert(forall|i: int|
            0 <= i < s.len() - 1 ==> #[trigger] s[i] == dec_chars(n / 10)[i]);
    }
}

/// A digit string is non-negative, and appending digits never shrinks the
/// value.
pub proof fn lemma_dec_val_bounds(s: Seq<char>)
    requires
        all_digits(s),
    ensures
        dec_val(s) >= 0,
        forall|i: int| 0 <= i <= s.len() ==> dec_val(#[trigger] s.take(i)) <= dec_val(s),
    decreases s.len(),
{
    if s.len() == 0 {
        assert(s.take(0) =~= s);
    } else {
        assert(all_digits(s.drop_last()));
        lemma_dec_val_bounds(s.drop_last());
        assert(is_digit(s.last()));
        assert(dec_val(s) >= dec_val(s.drop_last()));
        assert forall|i: int| 0 <= i <= s.len() implies dec_val(#[trigger] s.take(i)) <= dec_val(
            s,
        ) by {
            if i < s.len() {
                assert(s.take(i) =~= s.drop_last().take(i));
            } else {
                assert(s.take(i) =~= s);
            }
        }
    }
}

/// Reading one more digit multiplies the value read so far by ten and adds
/// the digit.
pub proof fn lemma_dec_val_step(s: Seq<char>, i: int)
    requires
        0 <= i < s.len(),
    ensures
        dec_val(s.take(i + 1)) == dec_val(s.take(i)) * 10 + digit_val(s[i]),
{
    assert(s.take(i + 1).drop_last() =~= s.take(i));
    assert(s.take(i + 1).last() == s[i]);
}

/// The decimal digit characters of `d`, which must be below ten.
fn digit_str(d: usize) -> (r: &'static str)
    requires
        d < 10,
    ensures
        r@ == seq![digit_char(d as int)],
{
    let r: &'static str = match d {
        0 => "0",
        1 => "1",
        2 => "2",
        3 => "3",
        4 => "4",
        5 => "5",
        6 => "6",
        7 => "7",
        8 => "8",
        _ => "9",
    };
    proof {
        reveal_strlit("0");
        reveal_strlit("1");
        reveal_strlit("2");
        reveal_strlit("3");
        reveal_strlit("4");
        reveal_strlit("5");
        reveal_strlit("6");
        reveal_strlit("7");
        reveal_strlit("8");
        reveal_strlit("9");
        assert(r@ =~= seq![digit_char(d as int)]);
    }
    r
}

/// Write `n` in decimal.
pub fn format_usize(n: usize) -> (s: String)
    ensures
        s@ == dec_chars(n as int),
    decreases n,
{
    if n < 10 {
        String::from_str(digit_str(n))
    } else {
        let mut s = format_usize(n / 10);
        s.append(digit_str(n % 10));
        proof {
            assert(s@ =~= dec_chars(n as int / 10).push(digit_char(n as int % 10)));
        }
        s
    }
}

/// Read a decimal number. Fails on an empty string, on any non-digit
/// character, and on a value too large for the machine.
pub fn parse_usize(s: &str) -> (r: Option<usize>)
    ensures
        match r {
            Some(v) => s@.len() > 0 && all_digits(s@) && dec_val(s@) == v as int,
            None => s@.len() == 0 || !all_digits(s@) || dec_val(s@) > usize::MAX as int,
        },
{
    let n = s.unicode_len();
    if n == 0 {
        return None;
    }
    let mut acc: usize = 0;
    let mut i: usize = 0;
    while i < n
        invariant
            0 <= i <= n,
            n == s@.len(),
            all_digits(s@.take(i as int)),
            acc as int == dec_val(s@.take(i as int)),
        decreases n - i,
    {
        let c = s.get_char(i);
        let cv = c as u32;
        if cv < 48 || cv > 57 {
            proof {
                assert(!is_digit(s@[i as int]));
            }
            return None;
        }
        let d = (cv - 48) as usize;
        let wide: u128 = (acc as u128) * 10 + (d as u128);
        proof {
            lemma_dec_val_step(s@, i as int);
            assert(all_digits(s@.take(i as int + 1)));
        }
        if wide > usize::MAX as u128 {
            proof {
                assert(dec_val(s@.take(i as int + 1)) > usize::MAX as int);
                if all_digits(s@) {
                    lemma_dec_val_bounds(s@);
                    assert(dec_val(s@.take(i as int + 1)) <= dec_val(s@));
                }
            }
            return None;
        }
        acc = wide as usize;
        i = i + 1;
    }
    proof {
        assert(s@.take(n as int) =~= s@);
    }
    Some(acc)
}

/// Split `s` on every occurrence of `c`.
pub fn split_on(s: &str, c: char) -> (parts: Vec<String>)
    ensures
        parts.deep_view() == split_all(s@, c),
        parts.len() >= 1,
    decreases s@.len(),
{
    match find_char(s, c) {
        None => {
            let mut parts: Vec<String> = Vec::new();
            parts.push(String::from_str(s));
            proof {
                assert(parts.deep_view() =~= split_all(s@, c));
            }
            parts
        },
        Some(i) => {
            let n = s.unicode_len();
            let head = s.substring_char(0, i);
            let tail = s.substring_char(i + 1, n);
            proof {
                assert(tail@ =~= s@.skip(i + 1));
            }
            let mut parts = split_on(tail, c);
            parts.insert(0, String::from_str(head));
            proof {
                assert(head@ =~= s@.take(i as int));
                assert(parts.deep_view() =~= seq![s@.take(i as int)] + split_all(
                    s@.skip(i + 1),
                    c,
                ));
            }
            parts
        },
    }
}

} // verus!
