//! The store, its settings and its pages.

use ohm_player::db::Db;
use ohm_player::db::DbError;
use ohm_player::db::Snapshot;
use ohm_player::pages::create_named_playlist;
use ohm_player::pages::history_page;
use ohm_player::pages::home;
use ohm_player::pages::playlist_items;
use ohm_player::pages::rename_if_named;
use ohm_player::pages::select_playlist;
use ohm_player::pages::split_stamp;
use ohm_player::playback::AudioState;
use ohm_player::playback::SECOND;
use ohm_player::player::known_duration;
use ohm_player::player::open_playlist;
use ohm_player::player::track_loaded;
use ohm_player::player::LoadEvent;
use ohm_player::schema::needed_migrations;
use ohm_player::schema::Migration;
use ohm_player::settings::eq_changed;
use ohm_player::settings::eq_gains;
use ohm_player::settings::load_settings;
use ohm_player::settings::set_crossfade;
use ohm_player::settings::set_eq_preset;
use ohm_player::settings::set_mono;
use ohm_player::settings::set_normalization;
use ohm_player::tables::AccessRecord;
use ohm_player::tables::Change;
use ohm_player::tables::EntryRecord;
use ohm_player::tables::Moment;
use ohm_player::tables::PlayRecord;
use ohm_player::tables::PlaylistRecord;
use ohm_player::tables::SettingRecord;
use ohm_player::track::Track;

const NOW: &str = "2024-05-06 07:08:09";

fn moment(stamp: &str) -> Moment {
    Moment { stamp: stamp.to_string(), day: stamp[..10].to_string() }
}

fn empty() -> Snapshot {
    Snapshot {
        playlists: Vec::new(),
        playlist_seq: 0,
        entries: Vec::new(),
        history: Vec::new(),
        history_seq: 0,
        accessed: Vec::new(),
        settings: Vec::new(),
    }
}

fn store(rows: Snapshot) -> Db {
    match Db::open(rows) {
        Ok(db) => db,
        Err(_) => panic!("the rows are well formed"),
    }
}

fn created(db: &mut Db, name: &str) -> i64 {
    match db.create_playlist(name) {
        Ok(id) => id,
        Err(_) => panic!("there are numbers left"),
    }
}

fn playlist(id: i64) -> PlaylistRecord {
    PlaylistRecord { id, name: "p".to_string(), cover: None }
}

fn entry(rowid: i64, playlist_id: i64, position: i64) -> EntryRecord {
    EntryRecord { rowid, playlist_id, path: format!("/{rowid}.mp3"), position }
}

fn play(id: i64) -> PlayRecord {
    PlayRecord {
        id,
        title: "t".to_string(),
        artist: "a".to_string(),
        album: String::new(),
        path: None,
        date: NOW.to_string(),
        day: Some(NOW[..10].to_string()),
    }
}

fn refused(rows: Snapshot) -> bool {
    matches!(Db::open(rows), Err(DbError::Malformed))
}

fn track(name: &str) -> Track {
    Track {
        path: format!("/{name}.mp3"),
        title: name.to_string(),
        artist: "artist".to_string(),
        album: "album".to_string(),
        is_voice: false,
    }
}

#[test]
fn rows_that_no_file_holds_are_refused() {
    assert!(!refused(empty()));
    let twice = vec![playlist(1), playlist(1)];
    assert!(refused(Snapshot { playlists: twice, playlist_seq: 1, ..empty() }));
    assert!(refused(Snapshot { entries: vec![entry(2, 1, 0), entry(1, 1, 1)], ..empty() }));
    assert!(refused(Snapshot { history: vec![play(3), play(3)], ..empty() }));
    let last = || AccessRecord { playlist_id: 1, last_played: NOW.to_string() };
    assert!(refused(Snapshot { accessed: vec![last(), last()], ..empty() }));
    let one = || SettingRecord { key: "k".to_string(), value: "v".to_string() };
    assert!(refused(Snapshot { settings: vec![one(), one()], ..empty() }));
}

#[test]
fn rows_above_the_recorded_numbers_are_taken() {
    let mut db = store(Snapshot {
        playlists: vec![playlist(-3), playlist(0), playlist(7)],
        playlist_seq: 2,
        entries: vec![entry(-9, 0, 0)],
        history: vec![play(0), play(5)],
        history_seq: 0,
        ..empty()
    });
    assert_eq!(db.list_playlists().len(), 3);
    assert_eq!(db.get_songs(0), vec!["/-9.mp3"]);
    assert_eq!(created(&mut db, "next"), 8);
    assert!(db.add_song(8, "/x").is_ok());
    assert_eq!(db.rows().entries[1].rowid, -8);
    assert!(db.add_scrobble("t", "a", &moment(NOW)).is_ok());
    assert_eq!(db.rows().history[2].id, 6);
    assert_eq!(db.total_plays(), 3);
    let mut low = store(Snapshot { playlists: vec![playlist(-5)], ..empty() });
    assert_eq!(created(&mut low, "first"), 1);
}

#[test]
fn playlist_numbers_are_never_given_twice() {
    let mut db = store(empty());
    let first = created(&mut db, "a");
    let second = created(&mut db, "b");
    assert_eq!((first, second), (1, 2));
    db.delete_playlist(second);
    assert_eq!(created(&mut db, "c"), 3);
    let mut full = store(Snapshot { playlist_seq: i64::MAX, ..empty() });
    assert!(matches!(full.create_playlist("x"), Err(DbError::Full)));
    assert!(full.list_playlists().is_empty());
}

#[test]
fn a_new_playlist_has_no_songs() {
    let mut db = store(empty());
    let id = created(&mut db, "new");
    assert!(db.get_songs(id).is_empty());
    let rows = db.list_playlists();
    assert_eq!(rows.len(), 1);
    assert_eq!((rows[0].id, rows[0].name.as_str(), rows[0].song_count), (id, "new", 0));
    assert!(rows[0].cover.is_none());
}

#[test]
fn songs_are_added_at_the_end() {
    let mut db = store(empty());
    let id = created(&mut db, "p");
    let other = created(&mut db, "q");
    for path in ["/a", "/b", "/a"] {
        assert!(db.add_song(id, path).is_ok());
    }
    assert!(db.add_song(other, "/z").is_ok());
    assert_eq!(db.get_songs(id), vec!["/a", "/b", "/a"]);
    assert_eq!(db.get_songs(other), vec!["/z"]);
    assert!(matches!(db.add_song(9, "/x"), Err(DbError::ForeignKey)));
    assert!(db.get_songs(9).is_empty());
}

#[test]
fn songs_are_removed_and_moved() {
    let mut db = store(empty());
    let id = created(&mut db, "p");
    for path in ["a", "b", "c", "d"] {
        assert!(db.add_song(id, path).is_ok());
    }
    db.remove_song(id, 1);
    assert_eq!(db.get_songs(id), vec!["a", "c", "d"]);
    db.remove_song(id, 3);
    assert_eq!(db.get_songs(id), vec!["a", "c", "d"]);
    db.move_song(id, 0, 2);
    assert_eq!(db.get_songs(id), vec!["c", "d", "a"]);
    db.move_song(id, 2, 0);
    assert_eq!(db.get_songs(id), vec!["a", "c", "d"]);
    db.move_song(id, 1, 1);
    db.move_song(id, 0, 3);
    db.move_song(id, 3, 0);
    assert_eq!(db.get_songs(id), vec!["a", "c", "d"]);
    assert!(db.add_song(id, "e").is_ok());
    assert_eq!(db.get_songs(id), vec!["a", "c", "d", "e"]);
}

#[test]
fn songs_keep_their_rows_when_reordered() {
    let mut db = store(empty());
    let p = created(&mut db, "p");
    let q = created(&mut db, "q");
    assert!(db.add_song(p, "a").is_ok());
    assert!(db.add_song(p, "b").is_ok());
    assert!(db.add_song(q, "c").is_ok());
    assert_eq!(db.library_paths(1), vec!["c", "b", "a"]);
    db.move_song(p, 0, 1);
    assert_eq!(db.get_songs(p), vec!["b", "a"]);
    assert_eq!(db.library_paths(1), vec!["c", "b", "a"]);
    assert_eq!(db.library_paths(0), vec!["a", "b", "c"]);
    let rows: Vec<(i64, &str, i64)> =
        db.rows().entries.iter().map(|e| (e.rowid, e.path.as_str(), e.position)).collect();
    assert_eq!(rows, vec![(1, "a", 1), (2, "b", 0), (3, "c", 0)]);
    db.remove_song(p, 0);
    assert_eq!(db.get_songs(p), vec!["a"]);
    assert_eq!(db.library_paths(1), vec!["c", "a"]);
    let rows: Vec<(i64, &str, i64)> =
        db.rows().entries.iter().map(|e| (e.rowid, e.path.as_str(), e.position)).collect();
    assert_eq!(rows, vec![(1, "a", 0), (3, "c", 0)]);
    assert!(db.add_song(p, "new").is_ok());
    assert_eq!(db.library_paths(1), vec!["new", "c", "a"]);
}

#[test]
fn songs_without_a_playlist_can_be_reordered() {
    let orphans = Snapshot { entries: vec![entry(1, 5, 0), entry(2, 5, 1)], ..empty() };
    let mut db = store(orphans);
    assert_eq!(db.get_songs(5), vec!["/1.mp3", "/2.mp3"]);
    db.move_song(5, 0, 1);
    assert_eq!(db.get_songs(5), vec!["/2.mp3", "/1.mp3"]);
}

#[test]
fn used_up_numbers_are_an_error() {
    let mut db = store(Snapshot {
        playlists: vec![playlist(1), playlist(2)],
        playlist_seq: 2,
        entries: vec![entry(5, 1, 0), entry(6, 1, i64::MAX), entry(i64::MAX, 2, 0)],
        history_seq: i64::MAX,
        ..empty()
    });
    assert!(matches!(db.add_song(2, "/x"), Err(DbError::Full)));
    db.remove_song(1, 0);
    assert_eq!(db.get_songs(1), vec!["/6.mp3"]);
    assert!(matches!(db.add_scrobble("t", "a", &moment(NOW)), Err(DbError::Full)));
    assert!(matches!(db.add_scrobble_with_path("t", "a", "", "/", &moment(NOW)), Err(DbError::Full)));
    assert_eq!(db.total_plays(), 0);
}

#[test]
fn deleting_a_playlist_takes_its_songs() {
    let mut db = store(empty());
    let id = created(&mut db, "p");
    let other = created(&mut db, "q");
    assert!(db.add_song(id, "/a").is_ok());
    assert!(db.add_song(other, "/b").is_ok());
    assert!(db.track_playlist_access(id, NOW).is_ok());
    db.delete_playlist(id);
    assert!(db.get_songs(id).is_empty());
    assert_eq!(db.get_songs(other), vec!["/b"]);
    assert_eq!(db.library_paths(0), vec!["/b"]);
    assert_eq!(db.recent_playlists(-1), vec![(other, "q".to_string())]);
    assert!(db.rows().accessed.is_empty());
    db.delete_playlist(77);
    assert_eq!(db.list_playlists().len(), 1);
}

#[test]
fn renaming_and_covers() {
    let mut db = store(empty());
    let id = created(&mut db, "p");
    let other = created(&mut db, "q");
    db.rename_playlist(id, "r");
    db.set_playlist_cover(id, "/c.png");
    db.rename_playlist(99, "nobody");
    let rows = db.list_playlists();
    assert_eq!((rows[0].id, rows[0].name.as_str()), (other, "q"));
    assert_eq!((rows[1].id, rows[1].name.as_str()), (id, "r"));
    assert_eq!(rows[1].cover.as_deref(), Some("/c.png"));
    assert!(rows[0].cover.is_none());
}

#[test]
fn changes_are_handed_out_once_and_in_order() {
    let mut db = store(empty());
    let id = created(&mut db, "p");
    assert!(db.add_song(id, "/a").is_ok());
    db.set_setting("k", "v");
    let changes = db.take_changes();
    assert_eq!(changes.len(), 3);
    assert!(matches!(&changes[0], Change::InsertPlaylist { id: 1, name } if name == "p"));
    assert!(matches!(&changes[1], Change::InsertEntry { entry } if entry.position == 0));
    assert!(matches!(&changes[2], Change::SetSetting { key, value } if key == "k" && value == "v"));
    assert!(db.take_changes().is_empty());
}

#[test]
fn the_playlist_played_last_comes_first() {
    let mut db = store(empty());
    let a = created(&mut db, "a");
    let b = created(&mut db, "b");
    let c = created(&mut db, "c");
    assert!(db.track_playlist_access(b, "2024-01-01 00:00:00").is_ok());
    assert!(db.track_playlist_access(c, "2024-01-02 00:00:00").is_ok());
    let ids = |db: &Db| -> Vec<i64> { db.recent_playlists(8).into_iter().map(|p| p.0).collect() };
    assert_eq!(ids(&db), vec![c, b, a]);
    assert!(db.track_playlist_access(b, "2024-01-03 00:00:00").is_ok());
    assert_eq!(ids(&db), vec![b, c, a]);
    assert!(matches!(db.track_playlist_access(9, NOW), Err(DbError::ForeignKey)));
}

#[test]
fn opening_a_playlist_notes_its_access() {
    let mut db = store(empty());
    let a = created(&mut db, "a");
    let b = created(&mut db, "b");
    assert!(db.add_song(b, "/x").is_ok());
    assert!(open_playlist(&mut db, a, NOW).is_empty());
    assert!(db.rows().accessed.is_empty());
    assert_eq!(open_playlist(&mut db, b, NOW), vec!["/x"]);
    assert_eq!(db.rows().accessed.len(), 1);
    assert_eq!(db.rows().accessed[0].last_played, NOW);
}

#[test]
fn library_paths_by_mode() {
    let mut db = store(empty());
    let id = created(&mut db, "a");
    for path in ["/c", "/a", "/c", "/b"] {
        assert!(db.add_song(id, path).is_ok());
    }
    assert_eq!(db.library_paths(0), vec!["/c", "/a", "/b"]);
    assert_eq!(db.library_paths(1), vec!["/b", "/a", "/c"]);
    assert_eq!(db.library_paths(2), vec!["/a", "/b", "/c"]);
    assert!(db.add_scrobble_with_path("t", "x", "", "/b", &moment(NOW)).is_ok());
    assert_eq!(db.library_paths(2), vec!["/b", "/a", "/c"]);
    assert!(db.add_scrobble_with_path("t", "x", "", "/c", &moment(NOW)).is_ok());
    assert_eq!(db.library_paths(2), vec!["/c", "/b", "/a"]);
}

#[test]
fn settings_read_back() {
    let mut db = store(empty());
    assert!(db.get_setting("volume").is_none());
    db.set_setting("volume", "0.5");
    db.set_setting("other", "x");
    db.set_setting("volume", "0.75");
    assert_eq!(db.get_setting("volume").as_deref(), Some("0.75"));
    assert_eq!(db.get_setting("other").as_deref(), Some("x"));
    assert_eq!(db.int_setting("other", 4), 4);
    db.set_setting("other", "-3");
    assert_eq!(db.int_setting("other", 4), -3);
    assert_eq!(db.int_setting("nothing", 4), 4);
}

#[test]
fn the_player_starts_with_what_was_kept() {
    let mut db = store(empty());
    let mut state = AudioState::new();
    assert_eq!(set_crossfade(&mut state, &mut db, 99), 12);
    set_normalization(&mut state, &mut db, 2);
    set_mono(&mut state, &mut db, true);
    let gains = set_eq_preset(&mut db, 3);
    assert_eq!((gains.bass, gains.mid, gains.treble), (8, 1, -1));
    assert_eq!(db.get_setting("crossfade").as_deref(), Some("12"));
    assert_eq!(db.get_setting("mono").as_deref(), Some("1"));
    assert_eq!(db.get_setting("eq_treble").as_deref(), Some("-1"));
    let mut fresh = AudioState::new();
    let settings = load_settings(&mut fresh, &db);
    assert_eq!((settings.crossfade, fresh.crossfade()), (12, 12));
    assert_eq!(settings.normalization, 2);
    assert!(settings.mono && fresh.mono());
    assert_eq!(settings.eq_preset, 3);
    set_mono(&mut state, &mut db, false);
    assert!(!load_settings(&mut fresh, &db).mono);
}

#[test]
fn settings_out_of_range_are_held_in_it() {
    let mut db = store(empty());
    db.set_setting("crossfade", "99");
    db.set_setting("normalization", "-4");
    db.set_setting("mono", "7");
    db.set_setting("eq_preset", "x");
    let mut state = AudioState::new();
    let settings = load_settings(&mut state, &db);
    assert_eq!((settings.crossfade, settings.normalization), (12, 0));
    assert!(settings.mono);
    assert_eq!(settings.eq_preset, 0);
}

#[test]
fn equalizer_presets() {
    let all: Vec<(i32, i32, i32)> = (0..6)
        .map(|p| {
            let g = eq_gains(p);
            (g.bass, g.mid, g.treble)
        })
        .collect();
    assert_eq!(all, vec![(0, 0, 0), (4, 1, 3), (-1, 2, 4), (8, 1, -1), (2, 3, 2), (0, 0, 0)]);
}

#[test]
fn gains_set_by_hand_belong_to_no_preset() {
    let mut db = store(empty());
    set_eq_preset(&mut db, 1);
    eq_changed(&mut db, "1.5", "0", "-2");
    assert_eq!(db.get_setting("eq_bass").as_deref(), Some("1.5"));
    assert_eq!(db.get_setting("eq_mid").as_deref(), Some("0"));
    assert_eq!(db.get_setting("eq_treble").as_deref(), Some("-2"));
    assert_eq!(db.int_setting("eq_preset", 0), -1);
}

#[test]
fn old_files_get_the_missing_columns() {
    let columns = |names: &[&str]| -> Vec<String> { names.iter().map(|n| n.to_string()).collect() };
    let old = needed_migrations(&columns(&["id", "titulo", "artista", "data_reproducao"]));
    assert_eq!(old.len(), 2);
    assert!(matches!(old[0], Migration::AddPath));
    assert!(matches!(old[1], Migration::AddAlbum));
    let newer = needed_migrations(&columns(&["id", "caminho_mp3"]));
    assert!(newer.len() == 1 && matches!(newer[0], Migration::AddAlbum));
    let albums = needed_migrations(&columns(&["album"]));
    assert!(albums.len() == 1 && matches!(albums[0], Migration::AddPath));
    assert!(needed_migrations(&columns(&["album", "caminho_mp3"])).is_empty());
}

#[test]
fn time_stamps_are_split() {
    let parts = |s: &str| -> (String, String) { split_stamp(s) };
    let owned = |a: &str, b: &str| -> (String, String) { (a.to_string(), b.to_string()) };
    assert_eq!(parts(NOW), owned("2024-05-06", "07:08"));
    assert_eq!(parts("2024-05-06"), owned("2024-05-06", ""));
    assert_eq!(parts("x 1"), owned("x", "1"));
    assert_eq!(parts("x "), owned("x", ""));
    assert_eq!(parts(""), owned("", ""));
    assert_eq!(parts("a 123456 7"), owned("a", "12345"));
    assert_eq!(parts("a ééééééé"), owned("a", "ééééé"));
}

#[test]
fn the_duration_is_reported_or_counted() {
    assert_eq!(known_duration(Some(5), Some(7)), 5);
    assert_eq!(known_duration(None, Some(7)), 7);
    assert_eq!(known_duration(None, None), 0);
}

#[test]
fn a_track_that_plays_is_scrobbled() {
    let mut db = store(empty());
    let mut state = AudioState::new();
    state.start_queue(vec![track("one"), track("two")], 1);
    let event = LoadEvent::Playing { duration: 125 * SECOND + 1 };
    let (shown, scrobbled) = track_loaded(&mut state, &mut db, event, &moment(NOW)).unwrap();
    assert!(scrobbled.is_ok());
    assert!(state.loaded());
    assert_eq!(state.duration(), 125 * SECOND + 1);
    assert_eq!(shown.title, "two");
    assert_eq!(shown.artist, "artist");
    assert_eq!(shown.album, "album");
    assert_eq!(shown.path, "/two.mp3");
    assert_eq!(shown.queue_info, "Faixa 2 de 2");
    assert_eq!(shown.duration_text, "2:05");
    let rows = db.recent_scrobbles(5);
    assert_eq!(rows.len(), 1);
    assert_eq!((rows[0].title.as_str(), rows[0].date.as_str()), ("two", NOW));
    assert_eq!(db.recent_songs(1)[0].2, "/two.mp3");
}

#[test]
fn a_track_that_does_not_play_is_not_scrobbled() {
    let mut db = store(empty());
    let mut state = AudioState::new();
    state.start_queue(vec![track("one")], 0);
    state.set_duration(7);
    assert!(track_loaded(&mut state, &mut db, LoadEvent::Unreadable, &moment(NOW)).is_none());
    assert_eq!(state.duration(), 7);
    let event = LoadEvent::NoOutput { duration: 9 };
    assert!(track_loaded(&mut state, &mut db, event, &moment(NOW)).is_none());
    assert_eq!(state.duration(), 9);
    assert!(!state.loaded());
    let mut nothing = AudioState::new();
    let event = LoadEvent::Playing { duration: 9 };
    assert!(track_loaded(&mut nothing, &mut db, event, &moment(NOW)).is_none());
    assert_eq!(db.total_plays(), 0);
}

#[test]
fn a_full_history_is_reported() {
    let mut db = store(Snapshot { history_seq: i64::MAX, ..empty() });
    let mut state = AudioState::new();
    state.start_queue(vec![track("one")], 0);
    let event = LoadEvent::Playing { duration: 0 };
    let (_, scrobbled) = track_loaded(&mut state, &mut db, event, &moment(NOW)).unwrap();
    assert!(matches!(scrobbled, Err(DbError::Full)));
    assert!(state.loaded());
}

#[test]
fn selecting_a_playlist() {
    let mut db = store(empty());
    let a = created(&mut db, "a");
    let b = created(&mut db, "b");
    assert!(db.add_song(b, "/x").is_ok());
    db.set_playlist_cover(b, "/c.png");
    let chosen = select_playlist(&db, b);
    assert_eq!((chosen.id, chosen.name.as_str()), (b as i32, "b"));
    assert_eq!(chosen.cover.as_deref(), Some("/c.png"));
    assert_eq!(chosen.songs, vec!["/x"]);
    assert!(select_playlist(&db, a).songs.is_empty());
    let none = select_playlist(&db, -1);
    assert_eq!((none.id, none.name.as_str()), (-1, ""));
    assert!(none.cover.is_none() && none.songs.is_empty());
}

#[test]
fn playlist_tiles() {
    let mut db = store(empty());
    created(&mut db, "b");
    let a = created(&mut db, "A");
    assert!(db.add_song(a, "/x").is_ok());
    let tiles = playlist_items(&db);
    assert_eq!(tiles.len(), 2);
    assert_eq!((tiles[0].id, tiles[0].name.as_str(), tiles[0].song_count), (2, "A", 1));
    assert_eq!((tiles[1].id, tiles[1].name.as_str(), tiles[1].song_count), (1, "b", 0));
}

#[test]
fn names_are_trimmed() {
    let mut db = store(empty());
    let id = match create_named_playlist(&mut db, "  Mix \n") {
        Ok(id) => id,
        Err(_) => panic!("there are numbers left"),
    };
    assert_eq!(db.list_playlists()[0].name, "Mix");
    assert!(!rename_if_named(&mut db, id, " \t"));
    assert_eq!(db.list_playlists()[0].name, "Mix");
    assert!(rename_if_named(&mut db, id, " New "));
    assert_eq!(db.list_playlists()[0].name, "New");
    assert!(create_named_playlist(&mut db, "   ").is_ok());
    assert_eq!(db.list_playlists()[0].name, "");
}

#[test]
fn home_shows_what_was_played_last() {
    let mut db = store(empty());
    for i in 0..10 {
        let id = created(&mut db, &format!("p{i}"));
        let now = format!("2024-01-01 00:00:{i}0");
        assert!(db.track_playlist_access(id, &now).is_ok());
        assert!(db.add_song(id, "/s").is_ok());
    }
    for i in 0..12 {
        let path = format!("/{i}.mp3");
        assert!(db.add_scrobble_with_path("t", "a", "album", &path, &moment(NOW)).is_ok());
    }
    assert!(db.add_scrobble("no file", "a", &moment(NOW)).is_ok());
    let page = home(&db);
    let names: Vec<String> = page.playlists.iter().map(|p| p.name.clone()).collect();
    assert_eq!(names, vec!["p9", "p8", "p7", "p6", "p5", "p4", "p3", "p2"]);
    assert_eq!((page.playlists[0].id, page.playlists[0].song_count), (10, 1));
    assert_eq!(page.songs.len(), 10);
    assert_eq!(page.songs[0].path, "/11.mp3");
    assert_eq!(page.songs[9].path, "/2.mp3");
    assert!(page.songs.iter().all(|s| s.album.is_empty() && !s.is_voice));
}

#[test]
fn history_page_sums_up() {
    let mut db = store(empty());
    for (title, artist, album, day) in [
        ("x", "A", "one", "2024-05-05"),
        ("x", "A", "one", "2024-05-06"),
        ("y", "A", "", "2024-05-06"),
        ("x", "B", "two", "2024-05-06"),
    ] {
        let now = format!("{day} 10:20:30");
        assert!(db.add_scrobble_with_path(title, artist, album, "/p", &moment(&now)).is_ok());
    }
    let days = vec!["2024-05-04".to_string(), "2024-05-05".to_string(), "2024-05-06".to_string()];
    let page = history_page(&db, "2024-05-06", &days);
    assert_eq!(page.scrobbles.len(), 4);
    assert_eq!(page.scrobbles[0].artist, "B");
    assert_eq!(page.scrobbles[0].date, "2024-05-06");
    assert_eq!(page.scrobbles[0].time, "10:20");
    let bars = |items: &Vec<ohm_player::pages::StatItem>| -> Vec<(String, i32, i64, i64)> {
        items.iter().map(|s| (s.name.clone(), s.count, s.amount, s.most)).collect()
    };
    let bar = |name: &str, n: i32, most: i64| (name.to_string(), n, n as i64, most);
    assert_eq!(bars(&page.top_artists), vec![bar("A", 3, 3), bar("B", 1, 3)]);
    assert_eq!(bars(&page.top_albums), vec![bar("one", 2, 2), bar("two", 1, 2)]);
    assert_eq!(
        bars(&page.top_tracks),
        vec![bar("x — A", 2, 2), bar("x — B", 1, 2), bar("y — A", 1, 2)]
    );
    assert_eq!(
        bars(&page.daily_plays),
        vec![bar("04/05", 0, 3), bar("05/05", 1, 3), bar("06/05", 3, 3)]
    );
    assert_eq!((page.total_plays, page.plays_today, page.unique_artists), (4, 3, 2));
}

#[test]
fn counts_of_the_rankings_add_up() {
    let mut db = store(empty());
    for (title, artist, album) in [
        ("x", "A", "one"),
        ("x", "A", "one"),
        ("y", "A", ""),
        ("x", "B", "two"),
        ("z", "C", ""),
    ] {
        assert!(db.add_scrobble_with_path(title, artist, album, "/p", &moment(NOW)).is_ok());
    }
    assert_eq!(db.total_plays(), 5);
    assert_eq!(db.top_artists(-1).iter().map(|s| s.count).sum::<i64>(), 5);
    assert_eq!(db.top_tracks(-1).iter().map(|s| s.count).sum::<i64>(), 5);
    assert_eq!(db.top_albums(-1).iter().map(|s| s.count).sum::<i64>(), 3);
}

#[test]
fn history_page_of_an_empty_history() {
    let db = store(empty());
    let page = history_page(&db, "2024-05-06", &vec!["2024-05-06".to_string()]);
    assert!(page.scrobbles.is_empty() && page.top_artists.is_empty());
    assert_eq!(page.daily_plays[0].most, 1);
    assert_eq!((page.total_plays, page.plays_today, page.unique_artists), (0, 0, 0));
}
