//! The library index and the search.

use ohm_player::library::Library;
use ohm_player::pages::album_items;
use ohm_player::pages::artist_items;
use ohm_player::track::Track;

fn track(title: &str, artist: &str, album: &str) -> Track {
    Track {
        path: format!("/{artist}/{title}.mp3"),
        title: title.to_string(),
        artist: artist.to_string(),
        album: album.to_string(),
        is_voice: false,
    }
}

fn titles(tracks: &Vec<Track>) -> Vec<String> {
    tracks.iter().map(|t| t.title.clone()).collect()
}

fn sample() -> Vec<Track> {
    let mut talk = track("evening talk", "Zoë", "");
    talk.is_voice = true;
    vec![
        track("beta", "anna", "First"),
        track("Alpha", "Bob", "second"),
        talk,
        track("gamma", "anna", "second"),
        track("ALPHA", "Zoë", "First"),
    ]
}

#[test]
fn songs_by_title_in_whatever_case() {
    let mut library = Library::new();
    library.refresh(sample(), 0);
    assert_eq!(titles(&library.tracks), vec!["Alpha", "ALPHA", "beta", "evening talk", "gamma"]);
}

#[test]
fn other_modes_keep_the_order() {
    let mut library = Library::new();
    library.refresh(sample(), 1);
    assert_eq!(titles(&library.tracks), titles(&sample()));
    library.refresh(sample(), 2);
    assert_eq!(titles(&library.tracks), titles(&sample()));
}

#[test]
fn albums_and_artists_are_counted() {
    let mut library = Library::new();
    library.refresh(sample(), 1);
    let albums: Vec<(String, String, i64, String)> = library
        .albums
        .iter()
        .map(|a| (a.name.clone(), a.artist.clone(), a.count, a.path.clone()))
        .collect();
    assert_eq!(
        albums,
        vec![
            ("First".to_string(), "anna".to_string(), 2, "/anna/beta.mp3".to_string()),
            ("second".to_string(), "Bob".to_string(), 2, "/Bob/Alpha.mp3".to_string()),
        ]
    );
    let artists: Vec<(String, i64)> =
        library.artists.iter().map(|a| (a.name.clone(), a.count)).collect();
    assert_eq!(
        artists,
        vec![("anna".to_string(), 2), ("Bob".to_string(), 1), ("Zoë".to_string(), 2)]
    );
}

#[test]
fn counts_of_the_index_add_up() {
    let mut library = Library::new();
    for mode in 0..3 {
        library.refresh(sample(), mode);
        assert_eq!(library.albums.iter().map(|a| a.count).sum::<i64>(), 4);
        assert_eq!(library.artists.iter().map(|a| a.count).sum::<i64>(), 5);
    }
    library.refresh(Vec::new(), 1);
    assert!(library.albums.is_empty() && library.artists.is_empty());
}

#[test]
fn names_that_differ_in_case_are_two() {
    let mut library = Library::new();
    library.refresh(vec![track("a", "X", "b"), track("b", "x", "B"), track("c", "X", "a")], 1);
    let albums: Vec<String> = library.albums.iter().map(|a| a.name.clone()).collect();
    assert_eq!(albums, vec!["a", "b", "B"]);
    let artists: Vec<String> = library.artists.iter().map(|a| a.name.clone()).collect();
    assert_eq!(artists, vec!["X", "x"]);
}

#[test]
fn tracks_of_an_album_and_of_an_artist() {
    let mut library = Library::new();
    library.refresh(sample(), 1);
    assert_eq!(titles(&library.album_tracks(1).unwrap()), vec!["Alpha", "gamma"]);
    assert_eq!(titles(&library.artist_tracks(0).unwrap()), vec!["beta", "gamma"]);
    assert!(library.album_tracks(2).is_none());
    assert!(library.artist_tracks(3).is_none());
    for (i, album) in library.albums.iter().enumerate() {
        assert_eq!(library.album_tracks(i).unwrap().len() as i64, album.count);
    }
    for (i, artist) in library.artists.iter().enumerate() {
        assert_eq!(library.artist_tracks(i).unwrap().len() as i64, artist.count);
    }
}

#[test]
fn search_looks_into_title_artist_and_album() {
    let mut library = Library::new();
    library.refresh(sample(), 1);
    library.run_search("  aLPh ", 0);
    assert_eq!(titles(&library.search), vec!["Alpha", "ALPHA"]);
    for query in ["alph", "ALPH", "AlPh ", "\tALPH"] {
        library.run_search(query, 0);
        assert_eq!(titles(&library.search), vec!["Alpha", "ALPHA"]);
    }
    library.run_search("zOË", 0);
    assert_eq!(titles(&library.search), vec!["evening talk", "ALPHA"]);
    library.run_search("ANNA", 0);
    assert_eq!(titles(&library.search), vec!["beta", "gamma"]);
    library.run_search("SECOND", 0);
    assert_eq!(titles(&library.search), vec!["Alpha", "gamma"]);
    library.run_search("ZOË", 0);
    assert_eq!(titles(&library.search), vec!["evening talk", "ALPHA"]);
    library.run_search("nowhere", 0);
    assert!(library.search.is_empty());
}

#[test]
fn search_by_category() {
    let mut library = Library::new();
    library.refresh(sample(), 1);
    library.run_search("zoë", 1);
    assert_eq!(titles(&library.search), vec!["ALPHA"]);
    library.run_search("zoë", 2);
    assert_eq!(titles(&library.search), vec!["evening talk"]);
    library.run_search("zoë", 7);
    assert_eq!(library.search.len(), 2);
}

#[test]
fn empty_query_finds_nothing() {
    let mut library = Library::new();
    library.refresh(sample(), 1);
    library.run_search("a", 0);
    assert!(!library.search.is_empty());
    library.run_search(" \t ", 0);
    assert!(library.search.is_empty());
    library.run_search("", 0);
    assert!(library.search.is_empty());
}

#[test]
fn refreshing_leaves_the_search_page() {
    let mut library = Library::new();
    library.refresh(sample(), 1);
    library.run_search("beta", 0);
    library.refresh(Vec::new(), 0);
    assert_eq!(titles(&library.search), vec!["beta"]);
    assert!(library.tracks.is_empty() && library.albums.is_empty() && library.artists.is_empty());
}

#[test]
fn tiles_of_albums_and_artists() {
    let mut library = Library::new();
    library.refresh(sample(), 1);
    let albums = album_items(&library.albums);
    assert_eq!(albums.len(), 2);
    assert_eq!(albums[0].name, "First");
    assert_eq!(albums[0].artist, "anna");
    assert_eq!(albums[0].count, 2);
    assert_eq!(albums[0].path, "/anna/beta.mp3");
    let artists = artist_items(&library.artists);
    assert_eq!(artists[1].name, "Bob");
    assert_eq!(artists[1].count, 1);
}
