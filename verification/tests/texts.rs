//! Texts, tracks and covers.

use ohm_player::cover::load_cover;
use ohm_player::text::contains;
use ohm_player::text::format_time;
use ohm_player::text::parse_i32;
use ohm_player::text::signed_to_string;
use ohm_player::text::to_lowercase;
use ohm_player::text::trim;
use ohm_player::text::white_space;
use ohm_player::track::read_track;
use ohm_player::track::song_items;
use ohm_player::track::track_with_stem;
use ohm_player::track::TagFields;

fn no_tag() -> TagFields {
    TagFields { title: None, artist: None, album: None, genre: None }
}

#[test]
fn white_space_is_that_of_char() {
    for c in '\0'..=char::MAX {
        assert_eq!(white_space(c), c.is_whitespace(), "{:?}", c);
    }
}

#[test]
fn trimming() {
    for s in ["", " ", "a", " a", "a ", "\t a b \u{3000}", "\u{a0}x\u{85}", " \n "] {
        assert_eq!(trim(s), s.trim());
        assert_eq!(trim(&trim(s)), s.trim());
    }
}

#[test]
fn substrings() {
    let texts = ["", "a", "aa", "aab", "banana", "ção", "podcasts"];
    for s in texts {
        for part in texts {
            assert_eq!(contains(s, part), s.contains(part), "{s} {part}");
        }
    }
    assert!(contains("banana", "nan"));
    assert!(!contains("banana", "nab"));
}

#[test]
fn numbers_are_read_as_i32_reads_them() {
    let texts = [
        "", "0", "-0", "+7", "-", "+", "--1", "007", "12", "-12", " 1", "1 ", "1.0", "x", "٣",
        "2147483647", "2147483648", "-2147483648", "-2147483649", "99999999999999999999",
    ];
    for s in texts {
        assert_eq!(parse_i32(s), s.parse::<i32>().ok(), "{s}");
    }
    for n in [0, 1, -1, 9, 10, -10, 12345, i32::MAX, i32::MIN] {
        assert_eq!(signed_to_string(n), n.to_string());
        assert_eq!(parse_i32(&signed_to_string(n)), Some(n));
    }
}

#[test]
fn times() {
    assert_eq!(format_time(0), "0:00");
    assert_eq!(format_time(5), "0:05");
    assert_eq!(format_time(65), "1:05");
    assert_eq!(format_time(3599), "59:59");
    assert_eq!(format_time(6000), "100:00");
}

#[test]
fn track_without_a_tag_is_named_after_its_file() {
    let t = read_track("/m/Song.mp3", None);
    assert_eq!(t.path, "/m/Song.mp3");
    assert_eq!(t.title, "Song");
    assert_eq!(t.artist, "Artista desconhecido");
    assert_eq!(t.album, "");
    assert!(!t.is_voice);
    assert_eq!(read_track("..", None).title, "..");
    assert_eq!(track_with_stem("p", Some("stem".to_string()), None).title, "stem");
    assert_eq!(track_with_stem("p", None, None).title, "p");
}

#[test]
fn track_takes_its_tag() {
    let tag = TagFields {
        title: Some("T".to_string()),
        artist: Some("A".to_string()),
        album: Some("B".to_string()),
        genre: Some("Rock".to_string()),
    };
    let t = read_track("/m/x.mp3", Some(tag));
    assert_eq!((t.title.as_str(), t.artist.as_str(), t.album.as_str()), ("T", "A", "B"));
    assert!(!t.is_voice);
    let bare = read_track("/m/x.mp3", Some(no_tag()));
    assert_eq!(bare.title, "x");
    assert_eq!(bare.artist, "Artista desconhecido");
}

#[test]
fn speech_is_told_by_genre_or_path() {
    for word in ["Podcast", "AUDIOBOOK", "Speech", "My Voice", "Voz", "spoken word"] {
        let tag = TagFields { genre: Some(word.to_string()), ..no_tag() };
        assert!(read_track("/m/x.mp3", Some(tag)).is_voice, "{word}");
        assert!(read_track(&format!("/m/{word}/x.mp3"), None).is_voice, "{word}");
    }
    let tag = TagFields { genre: Some("Vocal".to_string()), ..no_tag() };
    assert!(!read_track("/m/x.mp3", Some(tag)).is_voice);
}

#[test]
fn song_rows_show_the_tracks() {
    let t = read_track("/m/Podcast.mp3", None);
    let rows = song_items(&vec![t]);
    assert_eq!(rows.len(), 1);
    assert_eq!(rows[0].title, "Podcast");
    assert_eq!(rows[0].artist, "Artista desconhecido");
    assert_eq!(rows[0].album, "");
    assert_eq!(rows[0].path, "/m/Podcast.mp3");
    assert!(rows[0].is_voice);
}

/// A picture of one row in the format BMP: 24 bits a pixel, blue first.
fn bitmap(pixels: &[[u8; 3]]) -> Vec<u8> {
    let row = (pixels.len() * 3 + 3) / 4 * 4;
    let mut data: Vec<u8> = Vec::new();
    data.extend_from_slice(b"BM");
    data.extend_from_slice(&((54 + row) as u32).to_le_bytes());
    data.extend_from_slice(&[0; 4]);
    data.extend_from_slice(&54u32.to_le_bytes());
    data.extend_from_slice(&40u32.to_le_bytes());
    data.extend_from_slice(&(pixels.len() as u32).to_le_bytes());
    data.extend_from_slice(&1u32.to_le_bytes());
    data.extend_from_slice(&1u16.to_le_bytes());
    data.extend_from_slice(&24u16.to_le_bytes());
    data.extend_from_slice(&[0; 24]);
    for p in pixels {
        data.extend_from_slice(&[p[2], p[1], p[0]]);
    }
    data.resize(54 + row, 0);
    data
}

#[test]
fn cover_is_the_first_picture() {
    let red = bitmap(&[[255, 0, 0], [1, 2, 3]]);
    let blue = bitmap(&[[0, 0, 255]]);
    let cover = load_cover(&vec![red, blue]).unwrap();
    assert_eq!((cover.width, cover.height), (2, 1));
    assert_eq!(cover.pixels, vec![255, 0, 0, 255, 1, 2, 3, 255]);
}

#[test]
fn no_cover_without_a_readable_picture() {
    assert!(load_cover(&Vec::new()).is_none());
    assert!(load_cover(&vec![b"no picture".to_vec()]).is_none());
    let good = bitmap(&[[9, 9, 9]]);
    assert!(load_cover(&vec![Vec::new(), good]).is_none());
}

#[test]
fn lower_case_is_that_of_str() {
    let texts = [
        "", "abc", "ABC", "aZ09-_", "ÀÉÎ", "ZOË", "Straße", "ΟΔΟΣ", "ΑΣ", "AΣ", "AΣB", "aΣ", "aΣb",
        "Σ", "ΣA", "İstanbul", "I\u{307}", "ǅ", "ﬁ", "A\u{301}Σ.", "A'Σ", "Ⅳ", "日本",
    ];
    for s in texts {
        assert_eq!(to_lowercase(s), s.to_lowercase(), "{s}");
        assert_eq!(to_lowercase(&s.to_ascii_uppercase()), s.to_ascii_uppercase().to_lowercase());
    }
    for c in '\0'..=char::MAX {
        let s = format!("A{c}B");
        assert_eq!(to_lowercase(&s), s.to_lowercase(), "{:?}", c);
    }
}

#[test]
fn stems_are_those_of_paths() {
    let paths = ["a.mp3", "/m/a.b.mp3", "/m/.hidden", "/m/x", "/", "", "/m/..", "a/", "ção.ogg"];
    for path in paths {
        let stem = std::path::Path::new(path)
            .file_stem()
            .map(|s| s.to_string_lossy().into_owned())
            .unwrap_or_else(|| path.to_string());
        assert_eq!(read_track(path, None).title, stem, "{path}");
    }
}

#[test]
fn a_stem_is_not_empty_and_stands_in_the_path() {
    let paths = [
        "a.mp3",
        ".mp3",
        "..mp3",
        "/m/..a.b",
        "/m/a.",
        "...",
        "/m/x/",
        "/m/./x.ogg",
        "C:\\m\\x.mp3",
        " .mp3",
        "/m/ção.flac",
    ];
    for path in paths {
        let title = read_track(path, None).title;
        assert!(!title.is_empty() && path.contains(&title), "{path}");
    }
    assert_eq!(read_track("/m/..a.b", None).title, "..a");
    assert_eq!(read_track(".mp3", None).title, ".mp3");
}
