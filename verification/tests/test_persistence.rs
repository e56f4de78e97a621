use korama;
use korama::shared::{format_usize, parse_usize};

fn example_tracks() -> Vec<korama::Track> {
    vec![
        korama::Track {
            track_name: String::from("First track"),
            artist: String::from("Example artist"),
            album: String::from("Example album"),
            track_number: String::from(""),
            path: String::from("/some/path"),
        },
        korama::Track {
            track_name: String::from("Second track"),
            artist: String::from("Extrample artist"),
            album: String::from("Extrample album"),
            track_number: String::from("4"),
            path: String::from("/some/other/path"),
        },
        korama::Track {
            track_name: String::from("Third track"),
            artist: String::from("Nextrample artist"),
            album: String::from("Nextrample album"),
            track_number: String::from("4.2"),
            path: String::from("/some/other/path/again"),
        },
    ]
}

// Saving a playlist and loading it back yields the same name, tracks and
// cursor.
#[test]
fn playlist_round_trip_keeps_tracks_name_and_cursor() {
    let mut playlist = korama::Playlist::new(String::from("Round trip"));
    let tracks = example_tracks();
    for t in &tracks {
        playlist.add_track(t.clone());
    }
    playlist.next();
    playlist.next();

    let mut loaded = korama::Playlist::load(playlist.dump()).unwrap();
    assert!(loaded.get_name() == "Round trip");
    assert!(loaded.get_tracks() == tracks);
    // The saved cursor sat on the second track, so the next step yields
    // the third.
    assert!(loaded.next().unwrap() == tracks[2]);
}

#[test]
fn playlist_round_trip_with_unset_cursor() {
    let mut playlist = korama::Playlist::new(String::from("Fresh"));
    for t in &example_tracks() {
        playlist.add_track(t.clone());
    }

    let mut loaded = korama::Playlist::load(playlist.dump()).unwrap();
    assert!(loaded.next().unwrap() == example_tracks()[0]);
}

#[test]
fn empty_playlist_round_trip() {
    let playlist = korama::Playlist::new(String::from("Empty"));
    let mut loaded = korama::Playlist::load(playlist.dump()).unwrap();
    assert!(loaded.get_name() == "Empty");
    assert!(loaded.get_tracks() == vec![]);
    assert!(loaded.next() == None);
}

#[test]
fn library_load_rejects_missing_header() {
    let r = korama::MusicLibrary::load(String::from("no header separator"));
    assert!(matches!(r, Err(korama::FormatError::MissingHeader)));
}

#[test]
fn library_load_rejects_malformed_header() {
    let r = korama::MusicLibrary::load(format!("name\u{1f}path\u{1f}extra\u{1d}"));
    assert!(matches!(r, Err(korama::FormatError::MalformedHeader)));

    let r = korama::MusicLibrary::load(format!("only name\u{1d}"));
    assert!(matches!(r, Err(korama::FormatError::MalformedHeader)));
}

#[test]
fn library_load_rejects_unterminated_record() {
    let r = korama::MusicLibrary::load(format!("name\u{1f}path\u{1d}loose data"));
    assert!(matches!(r, Err(korama::FormatError::MissingRecordEnd)));
}

#[test]
fn library_load_rejects_wrong_field_count() {
    let r = korama::MusicLibrary::load(format!("name\u{1f}path\u{1d}a\u{1f}b\u{1e}"));
    assert!(matches!(r, Err(korama::FormatError::WrongFieldCount)));
}

#[test]
fn playlist_load_rejects_bad_position() {
    // Not a number.
    let r = korama::Playlist::load(format!("name\u{1f}abc\u{1d}"));
    assert!(matches!(r, Err(korama::FormatError::BadPosition)));

    // A number beyond the saved track list.
    let r = korama::Playlist::load(format!("name\u{1f}5\u{1d}"));
    assert!(matches!(r, Err(korama::FormatError::BadPosition)));

    // A number too large for the machine.
    let r = korama::Playlist::load(format!("name\u{1f}99999999999999999999999999\u{1d}"));
    assert!(matches!(r, Err(korama::FormatError::BadPosition)));
}

#[test]
fn cursor_digits_round_trip() {
    assert_eq!(format_usize(0), String::from("0"));
    assert_eq!(format_usize(7), String::from("7"));
    assert_eq!(format_usize(12345), String::from("12345"));

    assert_eq!(parse_usize("0"), Some(0));
    assert_eq!(parse_usize("42"), Some(42));
    assert_eq!(parse_usize("00123"), Some(123));
    assert_eq!(parse_usize(""), None);
    assert_eq!(parse_usize("12a"), None);
    assert_eq!(parse_usize("99999999999999999999999999"), None);
}

// A library survives a save and load even when its metadata holds spaces
// and unusual printable characters.
#[test]
fn library_round_trip_with_awkward_metadata() {
    let mut library = korama::MusicLibrary::new(
        String::from("Libre: a library?"),
        String::from("/mnt/music (new)"),
    );
    library.add_track_details(
        Some(String::from("Tr4ck & f\u{00e4}ncy n\u{00e4}me!")),
        Some(String::from("The \"Artists\"")),
        Some(String::from("B-sides; rarities")),
        Some(String::from("2.1")),
        String::from("/mnt/music (new)/x.mp3"),
    );

    let loaded = korama::MusicLibrary::load(library.dump()).unwrap();
    assert!(loaded.get_name() == library.get_name());
    assert!(loaded.get_path() == library.get_path());
    assert!(loaded.get_tracks() == library.get_tracks());
}

// One track drawn at random always comes from the library itself.
#[test]
fn random_track_comes_from_the_pool() {
    let mut library = korama::MusicLibrary::new(String::from("Pool"), String::from("."));
    library.add_track_details(
        Some(String::from("Only song")),
        Some(String::from("Only artist")),
        None,
        None,
        String::from("/only.mp3"),
    );
    let only = library.get_tracks()[0].clone();
    for _ in 0..10 {
        assert!(library.get_random_track() == only);
    }
}
