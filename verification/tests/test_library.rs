use korama;

#[test]
fn create_library() {
    let library_name = String::from("My library");
    let library_path = String::from(".");
    let library = korama::MusicLibrary::new(library_name.clone(), library_path.clone());

    assert!(library.get_name() == library_name);
    assert!(library.get_path() == library_path);
}

#[test]
fn test_save_and_load() {
    let library = set_up_test_library();
    // Ensure we have the expected contents before we save
    check_tracks_in_library_by_artist_and_album(&library);

    let saved = library.dump();

    let library = korama::MusicLibrary::load(saved).unwrap();
    assert!(library.get_name() == "Test library");
    assert!(library.get_path() == "resources/test/library");
    check_tracks_in_library_by_artist_and_album(&library);
}

#[test]
fn get_tracks_by_artist_and_album() {
    let library = set_up_test_library();

    check_tracks_in_library_by_artist_and_album(&library);
}

#[test]
fn get_tracks_by_track_name() {
    let library = set_up_test_library();

    let expected = vec![
        korama::Track {
            track_name: String::from("Falling over"),
            artist: String::from("Another artist"),
            album: String::from("The Ignored And the Found"),
            track_number: String::from("2.1"),
            path: get_full_track_path("another_artist/good_album/hidden_track.mp3"),
        },
        korama::Track {
            track_name: String::from("First steps"),
            artist: String::from("A different somebody"),
            album: String::from("Ignored"),
            track_number: String::from("1"),
            path: get_full_track_path("artist2/live_cover.mp3"),
        },
        korama::Track {
            track_name: String::from("First steps"),
            artist: String::from("Another artist"),
            album: String::from("The Ignored And the Found"),
            track_number: String::from("2"),
            path: get_full_track_path("another_artist/good_album/another_track.mp3"),
        },
        korama::Track {
            track_name: String::from("Ignored"),
            artist: String::from("Ignored"),
            album: String::from("Ignored"),
            track_number: String::from("1"),
            path: get_full_track_path("ignored.mp3"),
        },
        korama::Track {
            track_name: String::from("Not much to write home about"),
            artist: String::from("A different somebody"),
            album: String::from("The Greatest Album of Negligible MP3s"),
            track_number: String::from("1"),
            path: get_full_track_path("artist2/album/ignored.mp3"),
        },
        korama::Track {
            track_name: String::from("Scream into the mic"),
            artist: String::from("Somebody"),
            album: String::from("Live Bootleg"),
            track_number: String::from(""),
            path: get_full_track_path("artist1/test.mp3"),
        },
        korama::Track {
            track_name: String::from("The Second Step"),
            artist: String::from("Another artist"),
            album: String::from("The Ignored And the Found"),
            track_number: String::from("1"),
            path: get_full_track_path("another_artist/good_album/first_track.mp3"),
        },
    ];

    let result = library.get_tracks_by_title();

    assert!(
        result == expected,
        "Results not as expected.\nResults were:\n{}\nExpected:\n{}",
        generate_track_output(result),
        generate_track_output(expected),
    );
}

fn check_tracks_in_library_by_artist_and_album(library: &korama::MusicLibrary) {
    let expected = vec![
        korama::Track {
            track_name: String::from("First steps"),
            artist: String::from("A different somebody"),
            album: String::from("Ignored"),
            track_number: String::from("1"),
            path: get_full_track_path("artist2/live_cover.mp3"),
        },
        korama::Track {
            track_name: String::from("Not much to write home about"),
            artist: String::from("A different somebody"),
            album: String::from("The Greatest Album of Negligible MP3s"),
            track_number: String::from("1"),
            path: get_full_track_path("artist2/album/ignored.mp3"),
        },
        korama::Track {
            track_name: String::from("The Second Step"),
            artist: String::from("Another artist"),
            album: String::from("The Ignored And the Found"),
            track_number: String::from("1"),
            path: get_full_track_path("another_artist/good_album/first_track.mp3"),
        },
        korama::Track {
            track_name: String::from("First steps"),
            artist: String::from("Another artist"),
            album: String::from("The Ignored And the Found"),
            track_number: String::from("2"),
            path: get_full_track_path("another_artist/good_album/another_track.mp3"),
        },
        korama::Track {
            track_name: String::from("Falling over"),
            artist: String::from("Another artist"),
            album: String::from("The Ignored And the Found"),
            track_number: String::from("2.1"),
            path: get_full_track_path("another_artist/good_album/hidden_track.mp3"),
        },
        korama::Track {
            track_name: String::from("Ignored"),
            artist: String::from("Ignored"),
            album: String::from("Ignored"),
            track_number: String::from("1"),
            path: get_full_track_path("ignored.mp3"),
        },
        korama::Track {
            track_name: String::from("Scream into the mic"),
            artist: String::from("Somebody"),
            album: String::from("Live Bootleg"),
            track_number: String::from(""),
            path: get_full_track_path("artist1/test.mp3"),
        },
    ];

    let result = library.get_tracks_by_artist_and_album();

    assert!(
        result == expected,
        "Results not as expected.\nResults were:\n{}\nExpected:\n{}",
        generate_track_output(result),
        generate_track_output(expected),
    );
}

fn generate_track_output(tracks: Vec<korama::Track>) -> String {
    let mut output = String::from("");
    output.push_str("Found ");
    output.push_str(&tracks.len().to_string());
    output.push_str(" tracks.\n");
    for track in tracks {
        output.push_str("Artist: ");
        output.push_str(&track.artist);
        output.push_str(", Album: ");
        output.push_str(&track.album);
        output.push_str(", Track: ");
        output.push_str(&track.track_name);
        output.push_str(", Track number: ");
        output.push_str(&track.track_number);
        output.push_str(", Path: ");
        output.push_str(&track.path);
        output.push_str("\n");
    }
    output
}

fn get_full_track_path(rel_path: &str) -> String {
    let mut file_path = String::from("resources/test/library");
    file_path.push('/');
    file_path.push_str(rel_path);
    file_path
}

// The library a scan of the test collection would produce, entered through
// the same per-file decision the scanner uses.
fn set_up_test_library() -> korama::MusicLibrary {
    let mut library = korama::MusicLibrary::new(
        String::from("Test library"),
        String::from("resources/test/library"),
    );

    library.add_track_details(
        Some(String::from("Scream into the mic")),
        Some(String::from("Somebody")),
        Some(String::from("Live Bootleg")),
        None,
        get_full_track_path("artist1/test.mp3"),
    );
    library.add_track_details(
        Some(String::from("First steps")),
        Some(String::from("A different somebody")),
        Some(String::from("Ignored")),
        Some(String::from("1")),
        get_full_track_path("artist2/live_cover.mp3"),
    );
    library.add_track_details(
        Some(String::from("Not much to write home about")),
        Some(String::from("A different somebody")),
        Some(String::from("The Greatest Album of Negligible MP3s")),
        Some(String::from("1")),
        get_full_track_path("artist2/album/ignored.mp3"),
    );
    library.add_track_details(
        Some(String::from("The Second Step")),
        Some(String::from("Another artist")),
        Some(String::from("The Ignored And the Found")),
        Some(String::from("1")),
        get_full_track_path("another_artist/good_album/first_track.mp3"),
    );
    library.add_track_details(
        Some(String::from("First steps")),
        Some(String::from("Another artist")),
        Some(String::from("The Ignored And the Found")),
        Some(String::from("2")),
        get_full_track_path("another_artist/good_album/another_track.mp3"),
    );
    library.add_track_details(
        Some(String::from("Falling over")),
        Some(String::from("Another artist")),
        Some(String::from("The Ignored And the Found")),
        Some(String::from("2.1")),
        get_full_track_path("another_artist/good_album/hidden_track.mp3"),
    );
    library.add_track_details(
        Some(String::from("Ignored")),
        Some(String::from("Ignored")),
        Some(String::from("Ignored")),
        Some(String::from("1")),
        get_full_track_path("ignored.mp3"),
    );

    // A file whose required fields are missing is skipped, exactly as the
    // scanner skips it.
    let added = library.add_track_details(
        None,
        Some(String::from("Anonymous")),
        None,
        None,
        get_full_track_path("broken.mp3"),
    );
    assert!(!added);

    library
}
