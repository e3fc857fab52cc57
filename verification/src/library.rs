//! The library index: songs, albums and artists, and the search over them.

use vstd::prelude::*;

use crate::order::arranged;
use crate::order::key_views;
use crate::order::lemma_filter_step;
use crate::order::order_by;
use crate::order::ordered_by;
use crate::tally::count_of;
use crate::tally::first_indices;
use crate::tally::first_rows;
use crate::tally::group_sizes;
use crate::tally::key_of;
use crate::tally::lemma_first_indices;
use crate::tally::lemma_key_views_push;
use crate::tally::text_key;
use crate::text::contains;
use crate::text::has_substring;
use crate::text::lowercase;
use crate::text::to_lowercase;
use crate::text::trim;
use crate::text::trimmed;
use crate::track::Track;

verus! {

/// An album of the library.
pub struct AlbumEntry {
    pub name: String,
    /// The artist of its first track.
    pub artist: String,
    /// The number of its tracks.
    pub count: i64,
    /// The path of its first track, for the cover.
    pub path: String,
}

/// An artist of the library.
pub struct ArtistEntry {
    pub name: String,
    /// The number of their tracks.
    pub count: i64,
}

impl Clone for AlbumEntry {
    fn clone(&self) -> (r: Self)
        ensures
            r == *self,
    {
        AlbumEntry {
            name: self.name.clone(),
            artist: self.artist.clone(),
            count: self.count,
            path: self.path.clone(),
        }
    }
}

impl Clone for ArtistEntry {
    fn clone(&self) -> (r: Self)
        ensures
            r == *self,
    {
        ArtistEntry { name: self.name.clone(), count: self.count }
    }
}

/// The library index.
pub struct Library {
    /// All indexed tracks, in the selected sort order.
    pub tracks: Vec<Track>,
    /// Tracks shown on the search page.
    pub search: Vec<Track>,
    /// The albums, by name.
    pub albums: Vec<AlbumEntry>,
    /// The artists, by name.
    pub artists: Vec<ArtistEntry>,
}

/// The keys of texts.
pub open spec fn text_keys(texts: Seq<String>) -> Seq<Seq<i64>> {
    texts.map_values(|s: String| text_key(s@))
}

/// The keys that order tracks by title, in whatever letter case.
pub open spec fn title_keys(tracks: Seq<Track>) -> Seq<Seq<i64>> {
    tracks.map_values(|t: Track| text_key(lowercase(t.title@)))
}

/// The keys that group tracks by album.
pub open spec fn album_keys(tracks: Seq<Track>) -> Seq<Seq<i64>> {
    tracks.map_values(|t: Track| text_key(t.album@))
}

/// The keys that group tracks by artist.
pub open spec fn artist_keys(tracks: Seq<Track>) -> Seq<Seq<i64>> {
    tracks.map_values(|t: Track| text_key(t.artist@))
}

/// The keys that order albums by name, in whatever letter case.
pub open spec fn album_name_keys(albums: Seq<AlbumEntry>) -> Seq<Seq<i64>> {
    albums.map_values(|a: AlbumEntry| text_key(lowercase(a.name@)))
}

/// The keys that order artists by name, in whatever letter case.
pub open spec fn artist_name_keys(artists: Seq<ArtistEntry>) -> Seq<Seq<i64>> {
    artists.map_values(|a: ArtistEntry| text_key(lowercase(a.name@)))
}

/// The tracks that belong to an album.
pub open spec fn on_albums(tracks: Seq<Track>) -> Seq<Track> {
    tracks.filter(|t: Track| t.album@.len() > 0)
}

/// The tracks in a sort mode: 0 is by title, any other mode leaves the order as it is.
pub open spec fn in_sort_mode(tracks: Seq<Track>, sort: i32) -> Seq<Track> {
    if sort == 0 {
        ordered_by(tracks, title_keys(tracks), false)
    } else {
        tracks
    }
}

/// `found` lists the albums of `tracks`, as they first occur: each with its number of tracks and
/// with the artist and the path of its first track.
pub open spec fn lists_albums(tracks: Seq<Track>, found: Seq<AlbumEntry>) -> bool {
    let firsts = first_indices(album_keys(tracks));
    &&& found.len() == firsts.len()
    &&& forall|k: int|
        0 <= k < found.len() ==> {
            let t = tracks[firsts[k] as int];
            &&& (#[trigger] found[k]).name == t.album
            &&& found[k].artist == t.artist
            &&& found[k].path == t.path
            &&& found[k].count == count_of(album_keys(tracks), text_key(t.album@))
        }
}

/// `found` lists the artists of `tracks`, as they first occur, each with their number of tracks.
pub open spec fn lists_artists(tracks: Seq<Track>, found: Seq<ArtistEntry>) -> bool {
    let firsts = first_indices(artist_keys(tracks));
    &&& found.len() == firsts.len()
    &&& forall|k: int|
        0 <= k < found.len() ==> {
            let t = tracks[firsts[k] as int];
            &&& (#[trigger] found[k]).name == t.artist
            &&& found[k].count == count_of(artist_keys(tracks), text_key(t.artist@))
        }
}

/// `albums` are the albums of `tracks`, by name.
pub open spec fn indexes_albums(tracks: Seq<Track>, albums: Seq<AlbumEntry>) -> bool {
    exists|found: Seq<AlbumEntry>|
        {
            &&& #[trigger] lists_albums(on_albums(tracks), found)
            &&& albums == ordered_by(found, album_name_keys(found), false)
        }
}

/// `artists` are the artists of `tracks`, by name.
pub open spec fn indexes_artists(tracks: Seq<Track>, artists: Seq<ArtistEntry>) -> bool {
    exists|found: Seq<ArtistEntry>|
        {
            &&& #[trigger] lists_artists(tracks, found)
            &&& artists == ordered_by(found, artist_name_keys(found), false)
        }
}

/// The track is of the searched category: 1 is music, 2 is speech, any other is both.
pub open spec fn in_category(t: Track, filter: i32) -> bool {
    if filter == 1 {
        !t.is_voice
    } else if filter == 2 {
        t.is_voice
    } else {
        true
    }
}

/// The lowercase text `q` stands in the title, the artist or the album, in whatever letter case.
pub open spec fn answers(t: Track, q: Seq<char>) -> bool {
    ||| has_substring(lowercase(t.title@), q)
    ||| has_substring(lowercase(t.artist@), q)
    ||| has_substring(lowercase(t.album@), q)
}

/// The tracks that a search finds, in their order; an empty query finds none.
pub open spec fn search_results(tracks: Seq<Track>, query: Seq<char>, filter: i32) -> Seq<Track> {
    let q = lowercase(trimmed(query));
    if q.len() == 0 {
        Seq::empty()
    } else {
        tracks.filter(|t: Track| answers(t, q) && in_category(t, filter))
    }
}

/// The tracks of an album.
pub open spec fn tracks_of_album(tracks: Seq<Track>, name: Seq<char>) -> Seq<Track> {
    tracks.filter(|t: Track| t.album@ == name)
}

/// The tracks of an artist.
pub open spec fn tracks_of_artist(tracks: Seq<Track>, name: Seq<char>) -> Seq<Track> {
    tracks.filter(|t: Track| t.artist@ == name)
}

fn keys_of(texts: &Vec<String>) -> (keys: Vec<Vec<i64>>)
    ensures
        key_views(keys@) == text_keys(texts@),
{
    let mut keys: Vec<Vec<i64>> = Vec::new();
    let mut i: usize = 0;
    while i < texts.len()
        invariant
            i <= texts.len(),
            key_views(keys@) == text_keys(texts@).take(i as int),
        decreases texts.len() - i,
    {
        let key: Vec<i64> = key_of(texts[i].as_str());
        proof {
            lemma_key_views_push(keys@, key);
        }
        keys.push(key);
        i = i + 1;
        assert(key_views(keys@) =~= text_keys(texts@).take(i as int));
    }
    assert(text_keys(texts@).take(i as int) =~= text_keys(texts@));
    keys
}

/// Orders tracks by the given texts, one for each track; tracks with equal texts keep their order.
pub fn tracks_by_text(tracks: &Vec<Track>, texts: &Vec<String>) -> (r: Vec<Track>)
    requires
        tracks@.len() == texts@.len(),
    ensures
        r@ == ordered_by(tracks@, text_keys(texts@), false),
        r@.len() == tracks@.len(),
{
    let order: Vec<usize> = order_by(&keys_of(texts), false);
    let mut r: Vec<Track> = Vec::new();
    let mut i: usize = 0;
    while i < order.len()
        invariant
            i <= order.len(),
            forall|k: int| 0 <= k < order@.len() ==> #[trigger] order@[k] < tracks@.len(),
            r@ == arranged(tracks@, order@).take(i as int),
        decreases order.len() - i,
    {
        assert(order@[i as int] < tracks@.len());
        r.push(tracks[order[i]].clone());
        i = i + 1;
        assert(r@ =~= arranged(tracks@, order@).take(i as int));
    }
    assert(arranged(tracks@, order@).take(i as int) =~= arranged(tracks@, order@));
    r
}

/// Orders albums by the given texts, one for each album; albums with equal texts keep their order.
pub fn albums_by_text(albums: &Vec<AlbumEntry>, texts: &Vec<String>) -> (r: Vec<AlbumEntry>)
    requires
        albums@.len() == texts@.len(),
    ensures
        r@ == ordered_by(albums@, text_keys(texts@), false),
{
    let order: Vec<usize> = order_by(&keys_of(texts), false);
    let mut r: Vec<AlbumEntry> = Vec::new();
    let mut i: usize = 0;
    while i < order.len()
        invariant
            i <= order.len(),
            forall|k: int| 0 <= k < order@.len() ==> #[trigger] order@[k] < albums@.len(),
            r@ == arranged(albums@, order@).take(i as int),
        decreases order.len() - i,
    {
        assert(order@[i as int] < albums@.len());
        r.push(albums[order[i]].clone());
        i = i + 1;
        assert(r@ =~= arranged(albums@, order@).take(i as int));
    }
    assert(arranged(albums@, order@).take(i as int) =~= arranged(albums@, order@));
    r
}

/// Orders artists by the given texts, one for each artist; artists with equal texts keep their
/// order.
pub fn artists_by_text(artists: &Vec<ArtistEntry>, texts: &Vec<String>) -> (r: Vec<ArtistEntry>)
    requires
        artists@.len() == texts@.len(),
    ensures
        r@ == ordered_by(artists@, text_keys(texts@), false),
{
    let order: Vec<usize> = order_by(&keys_of(texts), false);
    let mut r: Vec<ArtistEntry> = Vec::new();
    let mut i: usize = 0;
    while i < order.len()
        invariant
            i <= order.len(),
            forall|k: int| 0 <= k < order@.len() ==> #[trigger] order@[k] < artists@.len(),
            r@ == arranged(artists@, order@).take(i as int),
        decreases order.len() - i,
    {
        assert(order@[i as int] < artists@.len());
        r.push(artists[order[i]].clone());
        i = i + 1;
        assert(r@ =~= arranged(artists@, order@).take(i as int));
    }
    assert(arranged(artists@, order@).take(i as int) =~= arranged(artists@, order@));
    r
}

/// Orders tracks by title, in whatever letter case.
pub fn sort_by_title(tracks: &Vec<Track>) -> (r: Vec<Track>)
    ensures
        r@ == in_sort_mode(tracks@, 0),
        r@.len() == tracks@.len(),
{
    let mut lower: Vec<String> = Vec::new();
    let mut i: usize = 0;
    while i < tracks.len()
        invariant
            i <= tracks.len(),
            lower@.len() == i,
            forall|k: int| 0 <= k < i ==> (#[trigger] lower@[k])@ == lowercase(tracks@[k].title@),
        decreases tracks.len() - i,
    {
        lower.push(to_lowercase(tracks[i].title.as_str()));
        i = i + 1;
    }
    assert(text_keys(lower@) =~= title_keys(tracks@));
    tracks_by_text(tracks, &lower)
}

/// Lists the albums of tracks as they first occur.
pub fn find_albums(tracks: &Vec<Track>) -> (found: Vec<AlbumEntry>)
    requires
        tracks@.len() <= i64::MAX,
    ensures
        lists_albums(tracks@, found@),
{
    let mut keys: Vec<Vec<i64>> = Vec::new();
    let mut i: usize = 0;
    while i < tracks.len()
        invariant
            i <= tracks.len(),
            key_views(keys@) == album_keys(tracks@).take(i as int),
        decreases tracks.len() - i,
    {
        let key: Vec<i64> = key_of(tracks[i].album.as_str());
        proof {
            lemma_key_views_push(keys@, key);
        }
        keys.push(key);
        i = i + 1;
        assert(key_views(keys@) =~= album_keys(tracks@).take(i as int));
    }
    assert(album_keys(tracks@).take(i as int) =~= album_keys(tracks@));
    assert(keys@.len() == key_views(keys@).len());
    let firsts: Vec<usize> = first_rows(&keys);
    let sizes: Vec<usize> = group_sizes(&keys);
    proof {
        lemma_first_indices(key_views(keys@));
    }
    let mut found: Vec<AlbumEntry> = Vec::new();
    let mut k: usize = 0;
    while k < firsts.len()
        invariant
            k <= firsts.len(),
            keys@.len() == tracks@.len(),
            tracks@.len() <= i64::MAX,
            key_views(keys@) == album_keys(tracks@),
            forall|m: int| 0 <= m < firsts@.len() ==> #[trigger] firsts@[m] < tracks@.len(),
            sizes@.len() == keys@.len(),
            forall|m: int|
                0 <= m < sizes@.len() ==> #[trigger] sizes@[m] == count_of(
                    key_views(keys@),
                    key_views(keys@)[m],
                ) && sizes@[m] <= keys@.len(),
            found@.len() == k,
            forall|m: int|
                0 <= m < k ==> {
                    let t = tracks@[firsts@[m] as int];
                    &&& (#[trigger] found@[m]).name == t.album
                    &&& found@[m].artist == t.artist
                    &&& found@[m].path == t.path
                    &&& found@[m].count == count_of(album_keys(tracks@), text_key(t.album@))
                },
        decreases firsts.len() - k,
    {
        assert(firsts@[k as int] < tracks@.len());
        let row: usize = firsts[k];
        assert(key_views(keys@)[row as int] == text_key(tracks@[row as int].album@));
        let count: i64 = sizes[row] as i64;
        let t: &Track = &tracks[row];
        found.push(
            AlbumEntry {
                name: t.album.clone(),
                artist: t.artist.clone(),
                count,
                path: t.path.clone(),
            },
        );
        k = k + 1;
    }
    found
}

/// Lists the artists of tracks as they first occur.
pub fn find_artists(tracks: &Vec<Track>) -> (found: Vec<ArtistEntry>)
    requires
        tracks@.len() <= i64::MAX,
    ensures
        lists_artists(tracks@, found@),
{
    let mut keys: Vec<Vec<i64>> = Vec::new();
    let mut i: usize = 0;
    while i < tracks.len()
        invariant
            i <= tracks.len(),
            key_views(keys@) == artist_keys(tracks@).take(i as int),
        decreases tracks.len() - i,
    {
        let key: Vec<i64> = key_of(tracks[i].artist.as_str());
        proof {
            lemma_key_views_push(keys@, key);
        }
        keys.push(key);
        i = i + 1;
        assert(key_views(keys@) =~= artist_keys(tracks@).take(i as int));
    }
    assert(artist_keys(tracks@).take(i as int) =~= artist_keys(tracks@));
    assert(keys@.len() == key_views(keys@).len());
    let firsts: Vec<usize> = first_rows(&keys);
    let sizes: Vec<usize> = group_sizes(&keys);
    proof {
        lemma_first_indices(key_views(keys@));
    }
    let mut found: Vec<ArtistEntry> = Vec::new();
    let mut k: usize = 0;
    while k < firsts.len()
        invariant
            k <= firsts.len(),
            keys@.len() == tracks@.len(),
            tracks@.len() <= i64::MAX,
            key_views(keys@) == artist_keys(tracks@),
            forall|m: int| 0 <= m < firsts@.len() ==> #[trigger] firsts@[m] < tracks@.len(),
            sizes@.len() == keys@.len(),
            forall|m: int|
                0 <= m < sizes@.len() ==> #[trigger] sizes@[m] == count_of(
                    key_views(keys@),
                    key_views(keys@)[m],
                ) && sizes@[m] <= keys@.len(),
            found@.len() == k,
            forall|m: int|
                0 <= m < k ==> {
                    let t = tracks@[firsts@[m] as int];
                    &&& (#[trigger] found@[m]).name == t.artist
                    &&& found@[m].count == count_of(artist_keys(tracks@), text_key(t.artist@))
                },
        decreases firsts.len() - k,
    {
        assert(firsts@[k as int] < tracks@.len());
        let row: usize = firsts[k];
        assert(key_views(keys@)[row as int] == text_key(tracks@[row as int].artist@));
        let count: i64 = sizes[row] as i64;
        found.push(ArtistEntry { name: tracks[row].artist.clone(), count });
        k = k + 1;
    }
    found
}

/// Indexes the albums of tracks: by name, in whatever letter case.
pub fn index_albums(tracks: &Vec<Track>) -> (albums: Vec<AlbumEntry>)
    requires
        tracks@.len() <= i64::MAX,
    ensures
        indexes_albums(tracks@, albums@),
{
    let ghost keep = |t: Track| t.album@.len() > 0;
    let mut rows: Vec<Track> = Vec::new();
    let mut i: usize = 0;
    assert(tracks@.take(0).filter(keep) == Seq::<Track>::empty()) by {
        reveal(Seq::filter);
    }
    while i < tracks.len()
        invariant
            i <= tracks.len(),
            rows@.len() <= i,
            keep == |t: Track| t.album@.len() > 0,
            rows@ == tracks@.take(i as int).filter(keep),
        decreases tracks.len() - i,
    {
        proof {
            lemma_filter_step(tracks@, keep, i as int);
        }
        if !tracks[i].album.as_str().is_empty() {
            rows.push(tracks[i].clone());
        }
        i = i + 1;
    }
    assert(tracks@.take(i as int) == tracks@);
    let found: Vec<AlbumEntry> = find_albums(&rows);
    let mut lower: Vec<String> = Vec::new();
    let mut k: usize = 0;
    while k < found.len()
        invariant
            k <= found.len(),
            lower@.len() == k,
            forall|m: int| 0 <= m < k ==> (#[trigger] lower@[m])@ == lowercase(found@[m].name@),
        decreases found.len() - k,
    {
        lower.push(to_lowercase(found[k].name.as_str()));
        k = k + 1;
    }
    assert(text_keys(lower@) =~= album_name_keys(found@));
    assert(lists_albums(on_albums(tracks@), found@));
    albums_by_text(&found, &lower)
}

/// Indexes the artists of tracks: by name, in whatever letter case.
pub fn index_artists(tracks: &Vec<Track>) -> (artists: Vec<ArtistEntry>)
    requires
        tracks@.len() <= i64::MAX,
    ensures
        indexes_artists(tracks@, artists@),
{
    let found: Vec<ArtistEntry> = find_artists(tracks);
    let mut lower: Vec<String> = Vec::new();
    let mut k: usize = 0;
    while k < found.len()
        invariant
            k <= found.len(),
            lower@.len() == k,
            forall|m: int| 0 <= m < k ==> (#[trigger] lower@[m])@ == lowercase(found@[m].name@),
        decreases found.len() - k,
    {
        lower.push(to_lowercase(found[k].name.as_str()));
        k = k + 1;
    }
    assert(text_keys(lower@) =~= artist_name_keys(found@));
    artists_by_text(&found, &lower)
}

/// Tells whether the lowercase text `q` stands in one of three lowercase texts.
pub fn query_hits(title: &str, artist: &str, album: &str, q: &str) -> (b: bool)
    ensures
        b == (has_substring(title@, q@) || has_substring(artist@, q@) || has_substring(album@, q@)),
{
    contains(title, q) || contains(artist, q) || contains(album, q)
}

/// Tells whether a track is of the searched category.
pub fn of_category(t: &Track, filter: i32) -> (b: bool)
    ensures
        b == in_category(*t, filter),
{
    match filter {
        1 => !t.is_voice,
        2 => t.is_voice,
        _ => true,
    }
}

impl Library {
    /// An empty library.
    pub fn new() -> (r: Self)
        ensures
            r.tracks@.len() == 0,
            r.search@.len() == 0,
            r.albums@.len() == 0,
            r.artists@.len() == 0,
    {
        Library { tracks: Vec::new(), search: Vec::new(), albums: Vec::new(), artists: Vec::new() }
    }

    /// Rebuilds the index from the given tracks: the songs in the sort mode (0 is by title, any
    /// other mode keeps the given order), the albums and the artists by name. The search page is
    /// left as it is.
    pub fn refresh(&mut self, tracks: Vec<Track>, sort: i32)
        requires
            tracks@.len() <= i64::MAX,
        ensures
            final(self).tracks@ == in_sort_mode(tracks@, sort),
            indexes_albums(final(self).tracks@, final(self).albums@),
            indexes_artists(final(self).tracks@, final(self).artists@),
            final(self).search@ == old(self).search@,
    {
        let tracks: Vec<Track> = if sort == 0 {
            sort_by_title(&tracks)
        } else {
            tracks
        };
        self.albums = index_albums(&tracks);
        self.artists = index_artists(&tracks);
        self.tracks = tracks;
    }

    /// Runs the search over the index and keeps what it finds for the search page.
    pub fn run_search(&mut self, query: &str, filter: i32)
        ensures
            final(self).search@ == search_results(old(self).tracks@, query@, filter),
            trimmed(query@).len() == 0 ==> final(self).search@.len() == 0,
            final(self).tracks@ == old(self).tracks@,
            final(self).albums@ == old(self).albums@,
            final(self).artists@ == old(self).artists@,
    {
        let q: String = to_lowercase(trim(query).as_str());
        let mut results: Vec<Track> = Vec::new();
        if !q.as_str().is_empty() {
            let ghost keep = |t: Track| answers(t, q@) && in_category(t, filter);
            let mut i: usize = 0;
            assert(self.tracks@.take(0).filter(keep) == Seq::<Track>::empty()) by {
                reveal(Seq::filter);
            }
            while i < self.tracks.len()
                invariant
                    i <= self.tracks.len(),
                    *self == *old(self),
                    keep == |t: Track| answers(t, q@) && in_category(t, filter),
                    results@ == self.tracks@.take(i as int).filter(keep),
                decreases self.tracks.len() - i,
            {
                proof {
                    lemma_filter_step(self.tracks@, keep, i as int);
                }
                let t: &Track = &self.tracks[i];
                if query_hits(
                    to_lowercase(t.title.as_str()).as_str(),
                    to_lowercase(t.artist.as_str()).as_str(),
                    to_lowercase(t.album.as_str()).as_str(),
                    q.as_str(),
                ) && of_category(t, filter) {
                    results.push(t.clone());
                }
                i = i + 1;
            }
            assert(self.tracks@.take(i as int) == self.tracks@);
        }
        self.search = results;
    }

    /// The tracks of the album at place `i`; none where there is no such album.
    pub fn album_tracks(&self, i: usize) -> (r: Option<Vec<Track>>)
        ensures
            i >= self.albums@.len() <==> r is None,
            r matches Some(ts) ==> ts@ == tracks_of_album(
                self.tracks@,
                self.albums@[i as int].name@,
            ),
    {
        if i >= self.albums.len() {
            return None;
        }
        let name: &String = &self.albums[i].name;
        let ghost keep = |t: Track| t.album@ == name@;
        let mut r: Vec<Track> = Vec::new();
        let mut k: usize = 0;
        assert(self.tracks@.take(0).filter(keep) == Seq::<Track>::empty()) by {
            reveal(Seq::filter);
        }
        while k < self.tracks.len()
            invariant
                k <= self.tracks.len(),
                keep == |t: Track| t.album@ == name@,
                r@ == self.tracks@.take(k as int).filter(keep),
            decreases self.tracks.len() - k,
        {
            proof {
                lemma_filter_step(self.tracks@, keep, k as int);
            }
            if self.tracks[k].album == *name {
                r.push(self.tracks[k].clone());
            }
            k = k + 1;
        }
        assert(self.tracks@.take(k as int) == self.tracks@);
        Some(r)
    }

    /// The tracks of the artist at place `i`; none where there is no such artist.
    pub fn artist_tracks(&self, i: usize) -> (r: Option<Vec<Track>>)
        ensures
            i >= self.artists@.len() <==> r is None,
            r matches Some(ts) ==> ts@ == tracks_of_artist(
                self.tracks@,
                self.artists@[i as int].name@,
            ),
    {
        if i >= self.artists.len() {
            return None;
        }
        let name: &String = &self.artists[i].name;
        let ghost keep = |t: Track| t.artist@ == name@;
        let mut r: Vec<Track> = Vec::new();
        let mut k: usize = 0;
        assert(self.tracks@.take(0).filter(keep) == Seq::<Track>::empty()) by {
            reveal(Seq::filter);
        }
        while k < self.tracks.len()
            invariant
                k <= self.tracks.len(),
                keep == |t: Track| t.artist@ == name@,
                r@ == self.tracks@.take(k as int).filter(keep),
            decreases self.tracks.len() - k,
        {
            proof {
                lemma_filter_step(self.tracks@, keep, k as int);
            }
            if self.tracks[k].artist == *name {
                r.push(self.tracks[k].clone());
            }
            k = k + 1;
        }
        assert(self.tracks@.take(k as int) == self.tracks@);
        Some(r)
    }
}

} // verus!
