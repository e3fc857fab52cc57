//! Tracks: what the player knows of an audio file.

use vstd::prelude::*;

use crate::tables::text_view;
use crate::text::chars_of;
use crate::text::contains_chars;
use crate::text::has_substring;
use crate::text::lowercase;
use crate::text::to_lowercase;

use std::path::Path;

verus! {

/// A track of the playback queue or of the library index.
pub struct Track {
    pub path: String,
    pub title: String,
    pub artist: String,
    pub album: String,
    /// Heuristic flag: speech content (podcasts, audiobooks, voice notes).
    pub is_voice: bool,
}

impl Clone for Track {
    fn clone(&self) -> (r: Self)
        ensures
            r == *self,
    {
        Track {
            path: self.path.clone(),
            title: self.title.clone(),
            artist: self.artist.clone(),
            album: self.album.clone(),
            is_voice: self.is_voice,
        }
    }
}

/// The text fields of the tag of an audio file; a field that the tag lacks is `None`.
pub struct TagFields {
    pub title: Option<String>,
    pub artist: Option<String>,
    pub album: Option<String>,
    pub genre: Option<String>,
}

/// A track as a row of a song list.
pub struct SongItem {
    pub title: String,
    pub artist: String,
    pub album: String,
    pub path: String,
    pub is_voice: bool,
}

/// A lowercase text speaks of speech content.
pub open spec fn speaks_of_voice(lower: Seq<char>) -> bool {
    ||| has_substring(lower, "podcast"@)
    ||| has_substring(lower, "audiobook"@)
    ||| has_substring(lower, "speech"@)
    ||| has_substring(lower, "voice"@)
    ||| has_substring(lower, "voz"@)
    ||| has_substring(lower, "spoken"@)
}

/// The text of an optional field, or `fallback` where it is missing.
pub open spec fn text_or(field: Option<Seq<char>>, fallback: Seq<char>) -> Seq<char> {
    match field {
        Some(s) => s,
        None => fallback,
    }
}

/// The title of a file: from its tag, else its file stem, else its path.
pub open spec fn title_of(
    path: Seq<char>,
    file_stem: Option<Seq<char>>,
    tag: Option<TagFields>,
) -> Seq<char> {
    match tag {
        Some(t) => text_or(text_view(t.title), text_or(file_stem, path)),
        None => text_or(file_stem, path),
    }
}

/// The artist of a file: from its tag, else a placeholder.
pub open spec fn artist_of(tag: Option<TagFields>) -> Seq<char> {
    match tag {
        Some(t) => text_or(text_view(t.artist), "Artista desconhecido"@),
        None => "Artista desconhecido"@,
    }
}

/// The album of a file: from its tag, else empty.
pub open spec fn album_of(tag: Option<TagFields>) -> Seq<char> {
    match tag {
        Some(t) => text_or(text_view(t.album), Seq::empty()),
        None => Seq::empty(),
    }
}

/// A file holds speech: its genre or its path says so, in whatever letter case.
pub open spec fn voice_of(path: Seq<char>, tag: Option<TagFields>) -> bool {
    ||| speaks_of_voice(lowercase(path))
    ||| match tag {
        Some(t) => match t.genre {
            Some(g) => speaks_of_voice(lowercase(g@)),
            None => false,
        },
        None => false,
    }
}

/// Tells whether a lowercase text speaks of speech content.
pub fn mentions_voice(lower: &str) -> (b: bool)
    ensures
        b == speaks_of_voice(lower@),
{
    let chars: Vec<char> = chars_of(lower);
    contains_chars(&chars, &chars_of("podcast")) || contains_chars(&chars, &chars_of("audiobook"))
        || contains_chars(&chars, &chars_of("speech")) || contains_chars(&chars, &chars_of("voice"))
        || contains_chars(&chars, &chars_of("voz")) || contains_chars(&chars, &chars_of("spoken"))
}

fn or_else(field: Option<String>, fallback: String) -> (r: String)
    ensures
        r@ == text_or(text_view(field), fallback@),
{
    match field {
        Some(s) => s,
        None => fallback,
    }
}

/// `stem` is what `Path::file_stem` can return for a path, as text.
///
/// A relation, not a function: which characters part a path, and what a drive is, differs between
/// systems.
pub uninterp spec fn may_be_stem(path: Seq<char>, stem: Option<Seq<char>>) -> bool;

/// Calls `Path::file_stem`.
///
/// Believed of it: what comes out is a stem of the path, and a stem is not empty and stands in the
/// path. Where a system parts paths is not spelled out.
#[verifier::external_body]
fn file_stem(path: &str) -> (r: Option<String>)
    ensures
        may_be_stem(path@, text_view(r)),
        r matches Some(s) ==> s@.len() > 0 && has_substring(path@, s@),
{
    Path::new(path).file_stem().map(|s| s.to_string_lossy().into_owned())
}

/// The track has the fields that a file with this path, this file stem and this tag has.
pub open spec fn is_track_of(
    r: Track,
    path: Seq<char>,
    stem: Option<Seq<char>>,
    tag: Option<TagFields>,
) -> bool {
    &&& r.path@ == path
    &&& r.title@ == title_of(path, stem, tag)
    &&& r.artist@ == artist_of(tag)
    &&& r.album@ == album_of(tag)
    &&& r.is_voice == voice_of(path, tag)
}

/// Makes the track of a file from its path and its tag. A title that the tag lacks is the stem of
/// the path.
pub fn read_track(path: &str, tag: Option<TagFields>) -> (r: Track)
    ensures
        exists|stem: Option<Seq<char>>|
            {
                &&& may_be_stem(path@, stem)
                &&& stem matches Some(s) ==> s.len() > 0 && has_substring(path@, s)
                &&& #[trigger] is_track_of(r, path@, stem, tag)
            },
{
    let stem: Option<String> = file_stem(path);
    let ghost seen = text_view(stem);
    let r: Track = track_with_stem(path, stem, tag);
    assert(is_track_of(r, path@, seen, tag));
    r
}

/// Makes the track of a file from its path, its file stem and its tag.
pub fn track_with_stem(path: &str, file_stem: Option<String>, tag: Option<TagFields>) -> (r: Track)
    ensures
        is_track_of(r, path@, text_view(file_stem), tag),
{
    let stem: String = or_else(file_stem, path.to_owned());
    let voice_path: bool = mentions_voice(to_lowercase(path).as_str());
    let unknown: String = "Artista desconhecido".to_owned();
    match tag {
        Some(t) => {
            let voice_genre: bool = match &t.genre {
                Some(g) => mentions_voice(to_lowercase(g.as_str()).as_str()),
                None => false,
            };
            Track {
                path: path.to_owned(),
                title: or_else(t.title, stem),
                artist: or_else(t.artist, unknown),
                album: or_else(t.album, String::new()),
                is_voice: voice_path || voice_genre,
            }
        },
        None => Track {
            path: path.to_owned(),
            title: stem,
            artist: unknown,
            album: String::new(),
            is_voice: voice_path,
        },
    }
}

impl SongItem {
    /// The row shows the fields of the track.
    pub open spec fn shows(self, t: Track) -> bool {
        &&& self.title == t.title
        &&& self.artist == t.artist
        &&& self.album == t.album
        &&& self.path == t.path
        &&& self.is_voice == t.is_voice
    }
}

/// The row of a song list for a track.
pub fn song_item(t: &Track) -> (r: SongItem)
    ensures
        r.shows(*t),
{
    SongItem {
        title: t.title.clone(),
        artist: t.artist.clone(),
        album: t.album.clone(),
        path: t.path.clone(),
        is_voice: t.is_voice,
    }
}

/// The rows of a song list for tracks, in their order.
pub fn song_items(tracks: &Vec<Track>) -> (r: Vec<SongItem>)
    ensures
        r@.len() == tracks@.len(),
        forall|i: int| 0 <= i < r@.len() ==> (#[trigger] r@[i]).shows(tracks@[i]),
{
    let mut r: Vec<SongItem> = Vec::new();
    let mut i: usize = 0;
    while i < tracks.len()
        invariant
            i <= tracks.len(),
            r@.len() == i,
            forall|k: int| 0 <= k < i ==> (#[trigger] r@[k]).shows(tracks@[k]),
        decreases tracks.len() - i,
    {
        r.push(song_item(&tracks[i]));
        i = i + 1;
    }
    r
}

/// Copies a list of tracks.
pub fn copy_tracks(tracks: &Vec<Track>) -> (r: Vec<Track>)
    ensures
        r@ == tracks@,
{
    let mut r: Vec<Track> = Vec::new();
    let mut i: usize = 0;
    while i < tracks.len()
        invariant
            i <= tracks.len(),
            r@ == tracks@.take(i as int),
        decreases tracks.len() - i,
    {
        r.push(tracks[i].clone());
        i = i + 1;
        assert(r@ =~= tracks@.take(i as int));
    }
    assert(tracks@.take(i as int) =~= tracks@);
    r
}

} // verus!
