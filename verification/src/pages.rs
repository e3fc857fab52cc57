//! What the pages show: the playlists, the selected one, the home page and the history page.

use vstd::prelude::*;
use vstd::string::*;

use crate::db::Db;
use crate::db::DbError;
use crate::history::album_ranking;
use crate::history::artist_count;
use crate::history::artist_ranking;
use crate::history::day_label;
use crate::history::latest_plays;
use crate::history::latest_songs;
use crate::history::plays_on;
use crate::history::stat_views;
use crate::history::track_ranking;
use crate::history::ScrobbleRow;
use crate::history::StatData;
use crate::history::StatRow;
use crate::library::AlbumEntry;
use crate::library::ArtistEntry;
use crate::listing::access_keys;
use crate::listing::latest_playlists;
use crate::listing::playlist_name_keys;
use crate::listing::playlists_by_name;
use crate::listing::PlaylistRow;
use crate::order::law_stable_order_exists;
use crate::order::stable_order;
use crate::playlists::entries_of;
use crate::playlists::songs_of;
use crate::playlists::text_views;
use crate::tables::lemma_ids_differ;
use crate::tables::text_view;
use crate::tables::ChangeData;
use crate::tables::PlayData;
use crate::tables::PlaylistData;
use crate::tables::Tables;
use crate::text::chars_of;
use crate::text::trim;
use crate::text::trimmed;
use crate::track::SongItem;

verus! {

/// A playlist as a tile.
pub struct PlaylistItem {
    pub id: i32,
    pub name: String,
    pub cover: Option<String>,
    pub song_count: i32,
}

impl PlaylistItem {
    /// The tile shows the playlist.
    pub open spec fn shows(self, t: Tables, p: PlaylistData) -> bool {
        &&& self.id == p.id as i32
        &&& self.name@ == p.name
        &&& text_view(self.cover) == p.cover
        &&& self.song_count == (entries_of(t, p.id).len() as i64) as i32
    }
}

/// The selected playlist.
pub struct Selection {
    /// -1 where nothing is selected.
    pub id: i32,
    pub name: String,
    pub cover: Option<String>,
    pub songs: Vec<String>,
}

/// The home page.
pub struct Home {
    pub playlists: Vec<PlaylistItem>,
    pub songs: Vec<SongItem>,
}

/// A play as a row of the history page.
pub struct ScrobbleItem {
    pub title: String,
    pub artist: String,
    pub album: String,
    pub date: String,
    pub time: String,
}

/// A bar of a chart.
pub struct StatItem {
    pub name: String,
    pub count: i32,
    /// The length of the bar, out of `most`.
    pub amount: i64,
    /// The longest bar of the chart, at least one.
    pub most: i64,
}

/// The history page.
pub struct HistoryPage {
    pub scrobbles: Vec<ScrobbleItem>,
    pub top_artists: Vec<StatItem>,
    pub top_albums: Vec<StatItem>,
    pub top_tracks: Vec<StatItem>,
    pub daily_plays: Vec<StatItem>,
    pub total_plays: i32,
    pub plays_today: i32,
    pub unique_artists: i32,
}

/// An album as a tile; its cover is that of the file at `path`.
pub struct AlbumItem {
    pub name: String,
    pub artist: String,
    pub count: i32,
    pub path: String,
}

/// An artist as a tile.
pub struct ArtistItem {
    pub name: String,
    pub count: i32,
}

/// The place of the first space; the length where there is none.
pub open spec fn first_space(s: Seq<char>) -> int
    decreases s.len(),
{
    if s.len() == 0 || s[0] == ' ' {
        0
    } else {
        1 + first_space(s.drop_first())
    }
}

/// The date of a time stamp: what stands before the first space.
pub open spec fn date_part(stamp: Seq<char>) -> Seq<char> {
    stamp.take(first_space(stamp))
}

/// The short time of a time stamp: up to five characters behind the first space.
pub open spec fn time_part(stamp: Seq<char>) -> Seq<char> {
    let at = first_space(stamp);
    if at >= stamp.len() {
        Seq::empty()
    } else if stamp.len() - at - 1 <= 5 {
        stamp.skip(at + 1)
    } else {
        stamp.subrange(at + 1, at + 6)
    }
}

impl ScrobbleItem {
    /// The row shows the play.
    pub open spec fn shows(self, p: PlayData) -> bool {
        &&& self.title@ == p.title
        &&& self.artist@ == p.artist
        &&& self.album@ == p.album
        &&& self.date@ == date_part(p.date)
        &&& self.time@ == time_part(p.date)
    }
}

/// The largest count, at least one.
pub open spec fn most_of(stats: Seq<StatData>) -> int
    decreases stats.len(),
{
    if stats.len() == 0 {
        1
    } else {
        let most = most_of(stats.drop_last());
        if stats.last().count > most {
            stats.last().count
        } else {
            most
        }
    }
}

/// The bars show the counts, each out of the largest.
pub open spec fn charts(items: Seq<StatItem>, stats: Seq<StatData>) -> bool {
    &&& items.len() == stats.len()
    &&& forall|k: int|
        0 <= k < items.len() ==> {
            &&& (#[trigger] items[k]).name@ == stats[k].name
            &&& items[k].amount == stats[k].count
            &&& items[k].count == (stats[k].count as i64) as i32
            &&& items[k].most == most_of(stats)
        }
}

/// The plays on each of the given days, under the labels of the days.
pub open spec fn daily_stats(t: Tables, days: Seq<Seq<char>>) -> Seq<StatData> {
    days.map_values(
        |day: Seq<char>|
            StatData { name: day_label(day), count: plays_on(t.history, day) as int },
    )
}

fn place_of_space(s: &Vec<char>) -> (r: usize)
    ensures
        r == first_space(s@),
        r <= s@.len(),
        r < s@.len() ==> s@[r as int] == ' ',
{
    let mut i: usize = 0;
    assert(s@.skip(0) =~= s@);
    while i < s.len() && s[i] != ' '
        invariant
            i <= s.len(),
            first_space(s@) == i + first_space(s@.skip(i as int)),
        decreases s.len() - i,
    {
        assert(s@.skip(i as int)[0] == s@[i as int]);
        assert(s@.skip(i as int).drop_first() =~= s@.skip(i + 1));
        i = i + 1;
    }
    if i < s.len() {
        assert(s@.skip(i as int)[0] == s@[i as int]);
    }
    i
}

/// Splits a time stamp `YYYY-MM-DD HH:MM:SS` into its date and its short time.
pub fn split_stamp(stamp: &str) -> (r: (String, String))
    ensures
        r.0@ == date_part(stamp@),
        r.1@ == time_part(stamp@),
{
    let chars: Vec<char> = chars_of(stamp);
    let len: usize = chars.len();
    let at: usize = place_of_space(&chars);
    let date: String = stamp.substring_char(0, at).to_owned();
    assert(date@ =~= date_part(stamp@));
    if at >= len {
        return (date, String::new());
    }
    let end: usize = if len - at - 1 <= 5 {
        len
    } else {
        at + 6
    };
    let time: String = stamp.substring_char(at + 1, end).to_owned();
    assert(time@ =~= time_part(stamp@));
    (date, time)
}

/// The rows of the history page for plays.
pub fn scrobble_items(rows: &Vec<ScrobbleRow>) -> (r: Vec<ScrobbleItem>)
    ensures
        r@.len() == rows@.len(),
        forall|k: int|
            0 <= k < r@.len() ==> {
                &&& (#[trigger] r@[k]).title@ == rows@[k].title@
                &&& r@[k].artist@ == rows@[k].artist@
                &&& r@[k].album@ == rows@[k].album@
                &&& r@[k].date@ == date_part(rows@[k].date@)
                &&& r@[k].time@ == time_part(rows@[k].date@)
            },
{
    let mut r: Vec<ScrobbleItem> = Vec::new();
    let mut i: usize = 0;
    while i < rows.len()
        invariant
            i <= rows.len(),
            r@.len() == i,
            forall|k: int|
                0 <= k < i ==> {
                    &&& (#[trigger] r@[k]).title@ == rows@[k].title@
                    &&& r@[k].artist@ == rows@[k].artist@
                    &&& r@[k].album@ == rows@[k].album@
                    &&& r@[k].date@ == date_part(rows@[k].date@)
                    &&& r@[k].time@ == time_part(rows@[k].date@)
                },
        decreases rows.len() - i,
    {
        let row: &ScrobbleRow = &rows[i];
        let (date, time): (String, String) = split_stamp(row.date.as_str());
        r.push(
            ScrobbleItem {
                title: row.title.clone(),
                artist: row.artist.clone(),
                album: row.album.clone(),
                date,
                time,
            },
        );
        i = i + 1;
    }
    r
}

/// The bars of a chart for counts.
pub fn to_stats(rows: Vec<StatRow>) -> (r: Vec<StatItem>)
    ensures
        charts(r@, stat_views(rows@)),
{
    let ghost stats = stat_views(rows@);
    let mut most: i64 = 1;
    let mut i: usize = 0;
    while i < rows.len()
        invariant
            i <= rows.len(),
            stats == stat_views(rows@),
            most == most_of(stats.take(i as int)),
        decreases rows.len() - i,
    {
        assert(stats.take(i + 1).drop_last() =~= stats.take(i as int));
        assert(stats.take(i + 1).last() == rows@[i as int]@);
        if rows[i].count > most {
            most = rows[i].count;
        }
        i = i + 1;
    }
    assert(stats.take(i as int) =~= stats);
    let mut r: Vec<StatItem> = Vec::new();
    let mut k: usize = 0;
    while k < rows.len()
        invariant
            k <= rows.len(),
            stats == stat_views(rows@),
            most == most_of(stats),
            r@.len() == k,
            forall|m: int|
                0 <= m < k ==> {
                    &&& (#[trigger] r@[m]).name@ == stats[m].name
                    &&& r@[m].amount == stats[m].count
                    &&& r@[m].count == (stats[m].count as i64) as i32
                    &&& r@[m].most == most_of(stats)
                },
        decreases rows.len() - k,
    {
        assert(stats[k as int] == rows@[k as int]@);
        let amount: i64 = rows[k].count;
        r.push(StatItem { name: rows[k].name.clone(), count: amount as i32, amount, most });
        k = k + 1;
    }
    r
}

fn playlist_item(id: i64, name: &String, cover: &Option<String>, song_count: i64) -> (r:
    PlaylistItem)
    ensures
        r.id == id as i32,
        r.name@ == name@,
        text_view(r.cover) == text_view(*cover),
        r.song_count == song_count as i32,
{
    PlaylistItem {
        id: id as i32,
        name: name.clone(),
        cover: match cover {
            Some(c) => Some(c.clone()),
            None => None,
        },
        song_count: song_count as i32,
    }
}

/// The tiles of all playlists, by name.
pub fn playlist_items(db: &Db) -> (r: Vec<PlaylistItem>)
    requires
        db.wf(),
    ensures
        r@.len() == db.tables().playlists.len(),
        r@.len() == playlists_by_name(db.tables()).len(),
        forall|k: int|
            0 <= k < r@.len() ==> (#[trigger] r@[k]).shows(
                db.tables(),
                playlists_by_name(db.tables())[k],
            ),
{
    let rows: Vec<PlaylistRow> = db.list_playlists();
    let mut r: Vec<PlaylistItem> = Vec::new();
    let mut i: usize = 0;
    while i < rows.len()
        invariant
            i <= rows.len(),
            rows@.len() == playlists_by_name(db.tables()).len(),
            forall|k: int|
                0 <= k < rows@.len() ==> (#[trigger] rows@[k]).shows(
                    db.tables(),
                    playlists_by_name(db.tables())[k],
                ),
            r@.len() == i,
            forall|k: int|
                0 <= k < i ==> (#[trigger] r@[k]).shows(
                    db.tables(),
                    playlists_by_name(db.tables())[k],
                ),
        decreases rows.len() - i,
    {
        let row: &PlaylistRow = &rows[i];
        assert(rows@[i as int].shows(db.tables(), playlists_by_name(db.tables())[i as int]));
        r.push(playlist_item(row.id, &row.name, &row.cover, row.song_count));
        i = i + 1;
    }
    r
}

/// Every listed playlist is one of the table, and every one of the table is listed.
proof fn lemma_listed(t: Tables)
    requires
        t.playlists.len() <= usize::MAX,
    ensures
        playlists_by_name(t).len() == t.playlists.len(),
        forall|k: int|
            0 <= k < playlists_by_name(t).len() ==> t.playlists.contains(
                #[trigger] playlists_by_name(t)[k],
            ),
        forall|i: int|
            0 <= i < t.playlists.len() ==> playlists_by_name(t).contains(#[trigger] t.playlists[i]),
{
    let keys = playlist_name_keys(t.playlists);
    law_stable_order_exists(keys, false);
    let order = stable_order(keys, false);
    assert forall|i: int| 0 <= i < t.playlists.len() implies playlists_by_name(t).contains(
        #[trigger] t.playlists[i],
    ) by {
        assert(order.contains(i as usize));
        let k = choose|k: int| 0 <= k < order.len() && order[k] == i as usize;
        assert(playlists_by_name(t)[k] == t.playlists[i]);
    }
    assert forall|k: int| 0 <= k < playlists_by_name(t).len() implies t.playlists.contains(
        #[trigger] playlists_by_name(t)[k],
    ) by {
        assert(order[k] < t.playlists.len());
        assert(playlists_by_name(t)[k] == t.playlists[order[k] as int]);
    }
}

fn find_row(rows: &Vec<PlaylistRow>, id: i64) -> (r: Option<usize>)
    ensures
        match r {
            Some(i) => i < rows@.len() && rows@[i as int].id == id,
            None => forall|k: int| 0 <= k < rows@.len() ==> (#[trigger] rows@[k]).id != id,
        },
{
    let mut i: usize = 0;
    while i < rows.len()
        invariant
            i <= rows.len(),
            forall|k: int| 0 <= k < i ==> (#[trigger] rows@[k]).id != id,
        decreases rows.len() - i,
    {
        if rows[i].id == id {
            return Some(i);
        }
        i = i + 1;
    }
    None
}

/// Selects a playlist: its tile and its songs. Where there is no such playlist nothing is selected.
pub fn select_playlist(db: &Db, playlist_id: i64) -> (r: Selection)
    requires
        db.wf(),
    ensures
        forall|i: int|
            0 <= i < db.tables().playlists.len() && (
            #[trigger] db.tables().playlists[i]).id == playlist_id ==> {
                let p = db.tables().playlists[i];
                &&& r.id == p.id as i32
                &&& r.name@ == p.name
                &&& text_view(r.cover) == p.cover
                &&& text_views(r.songs@) == songs_of(db.tables(), playlist_id)
            },
        !db.tables().has_playlist(playlist_id) ==> {
            &&& r.id == -1
            &&& r.name@.len() == 0
            &&& r.cover is None
            &&& r.songs@.len() == 0
        },
{
    let ghost t = db.tables();
    let rows: Vec<PlaylistRow> = db.list_playlists();
    proof {
        assert(db.rows.playlists.len() == t.playlists.len());
        lemma_listed(t);
    }
    match find_row(&rows, playlist_id) {
        Some(k) => {
            let row: &PlaylistRow = &rows[k];
            let ghost shown = playlists_by_name(t)[k as int];
            assert(rows@[k as int].shows(t, shown));
            proof {
                assert(t.playlists.contains(shown));
                let j = choose|j: int| 0 <= j < t.playlists.len() && t.playlists[j] == shown;
                assert(t.has_playlist(playlist_id)) by {
                    assert(t.playlists[j].id == playlist_id);
                }
                assert forall|i: int|
                    0 <= i < t.playlists.len() && (#[trigger] t.playlists[i]).id
                        == playlist_id implies t.playlists[i] == shown by {
                    lemma_ids_differ(t, j);
                }
            }
            let cover: Option<String> = match &row.cover {
                Some(c) => Some(c.clone()),
                None => None,
            };
            Selection {
                id: row.id as i32,
                name: row.name.clone(),
                cover,
                songs: db.get_songs(playlist_id),
            }
        },
        None => {
            proof {
                assert forall|i: int| 0 <= i < t.playlists.len() implies (
                #[trigger] t.playlists[i]).id != playlist_id by {
                    assert(playlists_by_name(t).contains(t.playlists[i]));
                    let k = choose|k: int|
                        0 <= k < playlists_by_name(t).len() && playlists_by_name(t)[k]
                            == t.playlists[i];
                    assert(rows@[k].shows(t, playlists_by_name(t)[k]));
                }
            }
            Selection { id: -1, name: String::new(), cover: None, songs: Vec::new() }
        },
    }
}

/// Creates a playlist under a name without the white space around it.
pub fn create_named_playlist(db: &mut Db, name: &str) -> (r: Result<i64, DbError>)
    requires
        old(db).wf(),
    ensures
        final(db).wf(),
        match r {
            Ok(id) => {
                &&& id == old(db).tables().playlist_seq + 1
                &&& final(db).after(
                    old(db),
                    Some(ChangeData::InsertPlaylist { id, name: trimmed(name@) }),
                )
            },
            Err(e) => {
                &&& e is Full
                &&& old(db).tables().playlist_seq == i64::MAX
                &&& final(db).after(old(db), None)
            },
        },
{
    db.create_playlist(trim(name).as_str())
}

/// Gives a playlist a name without the white space around it. A name that is then empty is ignored.
/// Tells whether it was not.
pub fn rename_if_named(db: &mut Db, id: i64, name: &str) -> (r: bool)
    requires
        old(db).wf(),
    ensures
        final(db).wf(),
        r == (trimmed(name@).len() > 0),
        r ==> final(db).after(
            old(db),
            Some(ChangeData::RenamePlaylist { id, name: trimmed(name@) }),
        ),
        !r ==> final(db).after(old(db), None),
{
    let name: String = trim(name);
    if name.as_str().is_empty() {
        return false;
    }
    db.rename_playlist(id, name.as_str());
    true
}

/// The home page: the eight playlists and the ten songs played last.
pub fn home(db: &Db) -> (r: Home)
    requires
        db.wf(),
    ensures
        r.playlists@.len() == latest_playlists(db.tables(), 8).len(),
        forall|k: int|
            0 <= k < r.playlists@.len() ==> (#[trigger] r.playlists@[k]).shows(
                db.tables(),
                latest_playlists(db.tables(), 8)[k],
            ),
        r.songs@.len() == latest_songs(db.tables(), 10).len(),
        forall|k: int|
            0 <= k < r.songs@.len() ==> {
                let p = latest_songs(db.tables(), 10)[k];
                &&& (#[trigger] r.songs@[k]).title@ == p.title
                &&& r.songs@[k].artist@ == p.artist
                &&& r.songs@[k].album@.len() == 0
                &&& p.path == Some(r.songs@[k].path@)
                &&& !r.songs@[k].is_voice
            },
{
    let ghost t = db.tables();
    let ghost latest = latest_playlists(t, 8);
    let rows: Vec<PlaylistRow> = db.list_playlists();
    let recent: Vec<(i64, String)> = db.recent_playlists(8);
    proof {
        assert(db.rows.playlists.len() == t.playlists.len());
        lemma_listed(t);
        lemma_latest_listed(t, 8);
    }
    let mut playlists: Vec<PlaylistItem> = Vec::new();
    let mut i: usize = 0;
    while i < recent.len()
        invariant
            i <= recent.len(),
            t == db.tables(),
            t.wf(),
            latest == latest_playlists(t, 8),
            recent@.len() == latest.len(),
            forall|k: int|
                0 <= k < recent@.len() ==> (#[trigger] recent@[k]).0 == latest[k].id
                    && recent@[k].1@ == latest[k].name,
            forall|k: int|
                0 <= k < latest.len() ==> t.playlists.contains(#[trigger] latest[k]),
            rows@.len() == playlists_by_name(t).len(),
            forall|k: int|
                0 <= k < rows@.len() ==> (#[trigger] rows@[k]).shows(t, playlists_by_name(t)[k]),
            forall|k: int|
                0 <= k < playlists_by_name(t).len() ==> t.playlists.contains(
                    #[trigger] playlists_by_name(t)[k],
                ),
            forall|k: int|
                0 <= k < t.playlists.len() ==> playlists_by_name(t).contains(
                    #[trigger] t.playlists[k],
                ),
            playlists@.len() == i,
            forall|k: int| 0 <= k < i ==> (#[trigger] playlists@[k]).shows(t, latest[k]),
        decreases recent.len() - i,
    {
        let id: i64 = recent[i].0;
        match find_row(&rows, id) {
            Some(k) => {
                let row: &PlaylistRow = &rows[k];
                proof {
                    assert(rows@[k as int].shows(t, playlists_by_name(t)[k as int]));
                    lemma_same_row(t, playlists_by_name(t)[k as int], latest[i as int]);
                }
                playlists.push(playlist_item(id, &recent[i].1, &row.cover, row.song_count));
            },
            None => {
                proof {
                    assert(t.playlists.contains(latest[i as int]));
                    let j = choose|j: int|
                        0 <= j < t.playlists.len() && t.playlists[j] == latest[i as int];
                    assert(playlists_by_name(t).contains(t.playlists[j]));
                    let k = choose|k: int|
                        0 <= k < playlists_by_name(t).len() && playlists_by_name(t)[k]
                            == t.playlists[j];
                    assert(rows@[k].shows(t, playlists_by_name(t)[k]));
                    assert(false);
                }
            },
        }
        i = i + 1;
    }
    let latest_played: Vec<(String, String, String)> = db.recent_songs(10);
    let mut songs: Vec<SongItem> = Vec::new();
    let mut k: usize = 0;
    while k < latest_played.len()
        invariant
            k <= latest_played.len(),
            songs@.len() == k,
            forall|m: int|
                0 <= m < k ==> {
                    &&& (#[trigger] songs@[m]).title@ == latest_played@[m].0@
                    &&& songs@[m].artist@ == latest_played@[m].1@
                    &&& songs@[m].album@.len() == 0
                    &&& songs@[m].path@ == latest_played@[m].2@
                    &&& !songs@[m].is_voice
                },
        decreases latest_played.len() - k,
    {
        songs.push(
            SongItem {
                title: latest_played[k].0.clone(),
                artist: latest_played[k].1.clone(),
                album: String::new(),
                path: latest_played[k].2.clone(),
                is_voice: false,
            },
        );
        k = k + 1;
    }
    assert forall|m: int| 0 <= m < songs@.len() implies {
        let p = latest_songs(t, 10)[m];
        &&& (#[trigger] songs@[m]).title@ == p.title
        &&& songs@[m].artist@ == p.artist
        &&& songs@[m].album@.len() == 0
        &&& p.path == Some(songs@[m].path@)
        &&& !songs@[m].is_voice
    } by {
        assert(latest_played@[m].0@ == latest_songs(t, 10)[m].title);
    }
    Home { playlists, songs }
}

/// Two playlists of the table with one number are one.
proof fn lemma_same_row(t: Tables, p: PlaylistData, q: PlaylistData)
    requires
        t.wf(),
        t.playlists.contains(p),
        t.playlists.contains(q),
        p.id == q.id,
    ensures
        p == q,
{
    let i = choose|i: int| 0 <= i < t.playlists.len() && t.playlists[i] == p;
    let j = choose|j: int| 0 <= j < t.playlists.len() && t.playlists[j] == q;
    lemma_ids_differ(t, i);
    assert(t.playlists[j].id == t.playlists[i].id);
}

/// The playlists played last are playlists of the table.
proof fn lemma_latest_listed(t: Tables, limit: int)
    requires
        t.playlists.len() <= usize::MAX,
    ensures
        forall|k: int|
            0 <= k < latest_playlists(t, limit).len() ==> t.playlists.contains(
                #[trigger] latest_playlists(t, limit)[k],
            ),
{
    let keys = access_keys(t);
    law_stable_order_exists(keys, true);
    let order = stable_order(keys, true);
    assert forall|k: int| 0 <= k < latest_playlists(t, limit).len() implies t.playlists.contains(
        #[trigger] latest_playlists(t, limit)[k],
    ) by {
        assert(order[k] < t.playlists.len());
        assert(latest_playlists(t, limit)[k] == t.playlists[order[k] as int]);
    }
}

/// The history page: the hundred latest plays, the five most played artists, albums and tracks, the
/// plays on the given days, and three totals. The days are written `YYYY-MM-DD`.
pub fn history_page(db: &Db, today: &str, days: &Vec<String>) -> (r: HistoryPage)
    requires
        db.wf(),
        forall|k: int| 0 <= k < days@.len() ==> (#[trigger] days@[k])@.len() == 10,
    ensures
        r.scrobbles@.len() == latest_plays(db.tables(), 100).len(),
        forall|k: int|
            0 <= k < r.scrobbles@.len() ==> (#[trigger] r.scrobbles@[k]).shows(
                latest_plays(db.tables(), 100)[k],
            ),
        charts(r.top_artists@, artist_ranking(db.tables(), 5)),
        charts(r.top_albums@, album_ranking(db.tables(), 5)),
        charts(r.top_tracks@, track_ranking(db.tables(), 5)),
        charts(r.daily_plays@, daily_stats(db.tables(), text_views(days@))),
        r.total_plays == (db.tables().history.len() as i64) as i32,
        r.plays_today == (plays_on(db.tables().history, today@) as i64) as i32,
        r.unique_artists == (artist_count(db.tables()) as i64) as i32,
{
    let rows: Vec<ScrobbleRow> = db.recent_scrobbles(100);
    let scrobbles: Vec<ScrobbleItem> = scrobble_items(&rows);
    assert forall|k: int| 0 <= k < scrobbles@.len() implies (#[trigger] scrobbles@[k]).shows(
        latest_plays(db.tables(), 100)[k],
    ) by {
        assert(rows@[k].title@ == latest_plays(db.tables(), 100)[k].title);
    }
    let daily: Vec<StatRow> = db.plays_per_day(days);
    assert(stat_views(daily@) =~= daily_stats(db.tables(), text_views(days@))) by {
        assert forall|k: int| 0 <= k < daily@.len() implies #[trigger] stat_views(daily@)[k]
            == daily_stats(db.tables(), text_views(days@))[k] by {
            assert(daily@[k].name@ == day_label(days@[k]@));
            assert(text_views(days@)[k] == days@[k]@);
        }
    }
    HistoryPage {
        scrobbles,
        top_artists: to_stats(db.top_artists(5)),
        top_albums: to_stats(db.top_albums(5)),
        top_tracks: to_stats(db.top_tracks(5)),
        daily_plays: to_stats(daily),
        total_plays: db.total_plays() as i32,
        plays_today: db.plays_today(today) as i32,
        unique_artists: db.unique_artists() as i32,
    }
}

/// The tiles of albums.
pub fn album_items(albums: &Vec<AlbumEntry>) -> (r: Vec<AlbumItem>)
    ensures
        r@.len() == albums@.len(),
        forall|k: int|
            0 <= k < r@.len() ==> {
                &&& (#[trigger] r@[k]).name == albums@[k].name
                &&& r@[k].artist == albums@[k].artist
                &&& r@[k].count == albums@[k].count as i32
                &&& r@[k].path == albums@[k].path
            },
{
    let mut r: Vec<AlbumItem> = Vec::new();
    let mut i: usize = 0;
    while i < albums.len()
        invariant
            i <= albums.len(),
            r@.len() == i,
            forall|k: int|
                0 <= k < i ==> {
                    &&& (#[trigger] r@[k]).name == albums@[k].name
                    &&& r@[k].artist == albums@[k].artist
                    &&& r@[k].count == albums@[k].count as i32
                    &&& r@[k].path == albums@[k].path
                },
        decreases albums.len() - i,
    {
        let album: &AlbumEntry = &albums[i];
        r.push(
            AlbumItem {
                name: album.name.clone(),
                artist: album.artist.clone(),
                count: album.count as i32,
                path: album.path.clone(),
            },
        );
        i = i + 1;
    }
    r
}

/// The tiles of artists.
pub fn artist_items(artists: &Vec<ArtistEntry>) -> (r: Vec<ArtistItem>)
    ensures
        r@.len() == artists@.len(),
        forall|k: int|
            0 <= k < r@.len() ==> {
                &&& (#[trigger] r@[k]).name == artists@[k].name
                &&& r@[k].count == artists@[k].count as i32
            },
{
    let mut r: Vec<ArtistItem> = Vec::new();
    let mut i: usize = 0;
    while i < artists.len()
        invariant
            i <= artists.len(),
            r@.len() == i,
            forall|k: int|
                0 <= k < i ==> {
                    &&& (#[trigger] r@[k]).name == artists@[k].name
                    &&& r@[k].count == artists@[k].count as i32
                },
        decreases artists.len() - i,
    {
        r.push(ArtistItem { name: artists[i].name.clone(), count: artists[i].count as i32 });
        i = i + 1;
    }
    r
}

} // verus!
