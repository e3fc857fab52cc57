//! The playback history: scrobbles and listening statistics.

use vstd::prelude::*;
use vstd::string::*;

use crate::db::Db;
use crate::db::DbError;
use crate::order::key_views;
use crate::order::lemma_filter_step;
use crate::order::limited;
use crate::tables::lemma_filter_places;
use crate::tables::play_views;
use crate::tables::Change;
use crate::tables::ChangeData;
use crate::tables::Moment;
use crate::tables::PlayData;
use crate::tables::PlayRecord;
use crate::tables::Tables;
use crate::tally::count_of;
use crate::tally::first_indices;
use crate::tally::first_rows;
use crate::tally::groups_by_size;
use crate::tally::keep_first;
use crate::tally::key_of;
use crate::tally::largest_groups;
use crate::tally::lemma_first_indices;
use crate::tally::lemma_key_views_push;
use crate::tally::pair_key;
use crate::tally::pair_key_of;
use crate::tally::push_text;
use crate::tally::text_key;

verus! {

/// A row of the listening history.
pub struct ScrobbleRow {
    pub title: String,
    pub artist: String,
    pub album: String,
    pub date: String,
}

/// A name and how often it was played.
pub struct StatRow {
    pub name: String,
    pub count: i64,
}

/// A name and how often it was played, as a mathematical value.
pub struct StatData {
    pub name: Seq<char>,
    pub count: int,
}

impl View for StatRow {
    type V = StatData;

    open spec fn view(&self) -> StatData {
        StatData { name: self.name@, count: self.count as int }
    }
}

pub open spec fn stat_views(rows: Seq<StatRow>) -> Seq<StatData> {
    rows.map_values(|r: StatRow| r@)
}

/// What plays are grouped by.
pub enum Grouping {
    Artist,
    /// Title and artist.
    Track,
    Album,
}

/// The key of a play in a grouping.
pub open spec fn play_key(p: PlayData, by: Grouping) -> Seq<i64> {
    match by {
        Grouping::Artist => text_key(p.artist),
        Grouping::Track => pair_key(p.title, p.artist),
        Grouping::Album => text_key(p.album),
    }
}

/// What a group of plays is called.
pub open spec fn play_name(p: PlayData, by: Grouping) -> Seq<char> {
    match by {
        Grouping::Artist => p.artist,
        Grouping::Track => p.title + " — "@ + p.artist,
        Grouping::Album => p.album,
    }
}

/// The keys of plays in a grouping.
pub open spec fn play_keys(rows: Seq<PlayData>, by: Grouping) -> Seq<Seq<i64>> {
    rows.map_values(|p: PlayData| play_key(p, by))
}

/// The keys that tell plays of different files, titles or artists apart.
pub open spec fn play_song_keys(rows: Seq<PlayData>) -> Seq<Seq<i64>> {
    rows.map_values(
        |p: PlayData| pair_key(p.title, p.artist).push((-1) as i64) + text_key(p.path->0),
    )
}

/// The plays of an album.
pub open spec fn plays_on_albums(rows: Seq<PlayData>) -> Seq<PlayData> {
    rows.filter(|p: PlayData| p.album.len() > 0)
}

/// The plays of a known file.
pub open spec fn plays_of_files(rows: Seq<PlayData>) -> Seq<PlayData> {
    rows.filter(|p: PlayData| p.path is Some)
}

/// The groups with the most plays, groups with equal counts by key.
pub open spec fn ranking(
    rows: Seq<PlayData>,
    by: Grouping,
    descending: bool,
    limit: int,
) -> Seq<StatData> {
    let keys = play_keys(rows, by);
    limited(groups_by_size(keys, descending), limit).map_values(
        |i: usize|
            StatData {
                name: play_name(rows[i as int], by),
                count: count_of(keys, keys[i as int]) as int,
            },
    )
}

/// The most played artists, artists with equal counts by descending name.
pub open spec fn artist_ranking(t: Tables, limit: int) -> Seq<StatData> {
    ranking(t.history, Grouping::Artist, true, limit)
}

/// The most played tracks, tracks with equal counts by title and artist.
pub open spec fn track_ranking(t: Tables, limit: int) -> Seq<StatData> {
    ranking(t.history, Grouping::Track, false, limit)
}

/// The most played albums, albums with equal counts by descending name.
pub open spec fn album_ranking(t: Tables, limit: int) -> Seq<StatData> {
    ranking(plays_on_albums(t.history), Grouping::Album, true, limit)
}

/// The number of plays on a day.
pub open spec fn plays_on(rows: Seq<PlayData>, day: Seq<char>) -> nat {
    rows.filter(|p: PlayData| p.day == Some(day)).len()
}

/// The label of a day `YYYY-MM-DD`: `DD/MM`.
pub open spec fn day_label(day: Seq<char>) -> Seq<char> {
    day.subrange(8, 10) + seq!['/'] + day.subrange(5, 7)
}

/// The number of different artists that were played.
pub open spec fn artist_count(t: Tables) -> nat {
    first_indices(play_keys(t.history, Grouping::Artist)).len()
}

/// The songs played last, the latest first, none of them twice.
pub open spec fn latest_songs(t: Tables, limit: int) -> Seq<PlayData> {
    let rows = plays_of_files(t.history).reverse();
    limited(first_indices(play_song_keys(rows)), limit).map_values(|i: usize| rows[i as int])
}

/// The latest plays, the latest first.
pub open spec fn latest_plays(t: Tables, limit: int) -> Seq<PlayData> {
    limited(t.history.reverse(), limit)
}

/// Copies the plays that a test holds of: of an album, or of a known file.
fn select_plays(rows: &Vec<PlayRecord>, albums: bool) -> (r: Vec<PlayRecord>)
    ensures
        albums ==> play_views(r@) == plays_on_albums(play_views(rows@)),
        !albums ==> play_views(r@) == plays_of_files(play_views(rows@)),
        r@.len() <= rows@.len(),
{
    let ghost keep = if albums {
        |p: PlayData| p.album.len() > 0
    } else {
        |p: PlayData| p.path is Some
    };
    let ghost all = play_views(rows@);
    let mut r: Vec<PlayRecord> = Vec::new();
    let mut i: usize = 0;
    assert(all.take(0).filter(keep) == Seq::<PlayData>::empty()) by {
        reveal(Seq::filter);
    }
    assert(play_views(r@) =~= Seq::<PlayData>::empty());
    while i < rows.len()
        invariant
            i <= rows.len(),
            r@.len() <= i,
            all == play_views(rows@),
            albums ==> keep == |p: PlayData| p.album.len() > 0,
            !albums ==> keep == |p: PlayData| p.path is Some,
            play_views(r@) == all.take(i as int).filter(keep),
        decreases rows.len() - i,
    {
        proof {
            lemma_filter_step(all, keep, i as int);
        }
        assert(all[i as int] == rows@[i as int]@);
        let wanted: bool = if albums {
            !rows[i].album.as_str().is_empty()
        } else {
            rows[i].path.is_some()
        };
        if wanted {
            let ghost before = r@;
            let row: PlayRecord = rows[i].clone();
            r.push(row);
            assert(play_views(r@) =~= play_views(before).push(row@));
        }
        i = i + 1;
    }
    assert(all.take(i as int) =~= all);
    r
}

fn keys_of_plays(rows: &Vec<PlayRecord>, by: &Grouping) -> (keys: Vec<Vec<i64>>)
    ensures
        key_views(keys@) == play_keys(play_views(rows@), *by),
        keys@.len() == rows@.len(),
{
    let ghost all = play_keys(play_views(rows@), *by);
    let mut keys: Vec<Vec<i64>> = Vec::new();
    let mut i: usize = 0;
    while i < rows.len()
        invariant
            i <= rows.len(),
            keys@.len() == i,
            all == play_keys(play_views(rows@), *by),
            key_views(keys@) == all.take(i as int),
        decreases rows.len() - i,
    {
        let row: &PlayRecord = &rows[i];
        let key: Vec<i64> = match by {
            Grouping::Artist => key_of(row.artist.as_str()),
            Grouping::Track => pair_key_of(row.title.as_str(), row.artist.as_str()),
            Grouping::Album => key_of(row.album.as_str()),
        };
        proof {
            lemma_key_views_push(keys@, key);
        }
        keys.push(key);
        i = i + 1;
        assert(key_views(keys@) =~= all.take(i as int));
    }
    assert(all.take(i as int) =~= all);
    keys
}

/// Ranks groups of plays by the number of plays; all of them where `limit` is negative.
fn rank_plays(rows: &Vec<PlayRecord>, by: Grouping, descending: bool, limit: i64) -> (r: Vec<
    StatRow,
>)
    requires
        rows@.len() <= i64::MAX,
    ensures
        stat_views(r@) == ranking(play_views(rows@), by, descending, limit as int),
{
    let ghost plays = play_views(rows@);
    let keys: Vec<Vec<i64>> = keys_of_plays(rows, &by);
    let groups: Vec<(usize, i64)> = largest_groups(&keys, descending, limit);
    let mut r: Vec<StatRow> = Vec::new();
    let mut k: usize = 0;
    while k < groups.len()
        invariant
            k <= groups.len(),
            keys@.len() == rows@.len(),
            plays == play_views(rows@),
            key_views(keys@) == play_keys(plays, by),
            forall|m: int|
                0 <= m < groups@.len() ==> (#[trigger] groups@[m]).0 < keys@.len()
                    && groups@[m].1 == count_of(
                    key_views(keys@),
                    key_views(keys@)[groups@[m].0 as int],
                ),
            r@.len() == k,
            forall|m: int|
                0 <= m < k ==> {
                    let g = groups@[m].0 as int;
                    &&& (#[trigger] r@[m]).name@ == play_name(plays[g], by)
                    &&& r@[m].count == count_of(play_keys(plays, by), play_keys(plays, by)[g])
                },
        decreases groups.len() - k,
    {
        assert(groups@[k as int].0 < keys@.len());
        let (at, count): (usize, i64) = groups[k];
        let row: &PlayRecord = &rows[at];
        let name: String = match by {
            Grouping::Artist => row.artist.clone(),
            Grouping::Track => {
                let mut s: String = row.title.clone();
                s.append(" — ");
                s.append(row.artist.as_str());
                s
            },
            Grouping::Album => row.album.clone(),
        };
        r.push(StatRow { name, count });
        k = k + 1;
    }
    assert(stat_views(r@) =~= ranking(plays, by, descending, limit as int));
    r
}

impl Db {
    /// Notes a play without a file.
    pub fn add_scrobble(&mut self, title: &str, artist: &str, now: &Moment) -> (r: Result<
        (),
        DbError,
    >)
        requires
            old(self).wf(),
        ensures
            final(self).wf(),
            ({
                let id = old(self).tables().history_seq + 1;
                if old(self).tables().history_is_full() {
                    &&& r == Err::<(), DbError>(DbError::Full)
                    &&& final(self).after(old(self), None)
                } else {
                    let play = PlayData {
                        id: id as i64,
                        title: title@,
                        artist: artist@,
                        album: Seq::empty(),
                        path: None,
                        date: now.stamp@,
                        day: Some(now.day@),
                    };
                    &&& r is Ok
                    &&& final(self).after(old(self), Some(ChangeData::InsertPlay { play }))
                }
            }),
    {
        if self.rows.history_seq == i64::MAX || self.rows.history.len() as u64 >= i64::MAX as u64 {
            return Err(DbError::Full);
        }
        let play: PlayRecord = PlayRecord {
            id: self.rows.history_seq + 1,
            title: title.to_owned(),
            artist: artist.to_owned(),
            album: String::new(),
            path: None,
            date: now.stamp.clone(),
            day: Some(now.day.clone()),
        };
        self.commit(Change::InsertPlay { play });
        Ok(())
    }

    /// Notes a play of a file.
    pub fn add_scrobble_with_path(
        &mut self,
        title: &str,
        artist: &str,
        album: &str,
        path: &str,
        now: &Moment,
    ) -> (r: Result<(), DbError>)
        requires
            old(self).wf(),
        ensures
            final(self).wf(),
            ({
                let id = old(self).tables().history_seq + 1;
                if old(self).tables().history_is_full() {
                    &&& r == Err::<(), DbError>(DbError::Full)
                    &&& final(self).after(old(self), None)
                } else {
                    let play = PlayData {
                        id: id as i64,
                        title: title@,
                        artist: artist@,
                        album: album@,
                        path: Some(path@),
                        date: now.stamp@,
                        day: Some(now.day@),
                    };
                    &&& r is Ok
                    &&& final(self).after(old(self), Some(ChangeData::InsertPlay { play }))
                }
            }),
    {
        if self.rows.history_seq == i64::MAX || self.rows.history.len() as u64 >= i64::MAX as u64 {
            return Err(DbError::Full);
        }
        let play: PlayRecord = PlayRecord {
            id: self.rows.history_seq + 1,
            title: title.to_owned(),
            artist: artist.to_owned(),
            album: album.to_owned(),
            path: Some(path.to_owned()),
            date: now.stamp.clone(),
            day: Some(now.day.clone()),
        };
        self.commit(Change::InsertPlay { play });
        Ok(())
    }

    /// The latest plays, the latest first; all of them where `limit` is negative.
    pub fn recent_scrobbles(&self, limit: i64) -> (r: Vec<ScrobbleRow>)
        ensures
            r@.len() == latest_plays(self.tables(), limit as int).len(),
            forall|k: int|
                0 <= k < r@.len() ==> {
                    let p = latest_plays(self.tables(), limit as int)[k];
                    &&& (#[trigger] r@[k]).title@ == p.title
                    &&& r@[k].artist@ == p.artist
                    &&& r@[k].album@ == p.album
                    &&& r@[k].date@ == p.date
                },
    {
        let n: usize = self.rows.history.len();
        let most: usize = if 0 <= limit && (limit as u64) < n as u64 {
            limit as usize
        } else {
            n
        };
        let mut r: Vec<ScrobbleRow> = Vec::new();
        let mut k: usize = 0;
        while k < most
            invariant
                k <= most <= n,
                n == self.rows.history@.len(),
                most == latest_plays(self.tables(), limit as int).len(),
                r@.len() == k,
                forall|m: int|
                    0 <= m < k ==> {
                        let p = latest_plays(self.tables(), limit as int)[m];
                        &&& (#[trigger] r@[m]).title@ == p.title
                        &&& r@[m].artist@ == p.artist
                        &&& r@[m].album@ == p.album
                        &&& r@[m].date@ == p.date
                    },
            decreases most - k,
        {
            let p: &PlayRecord = &self.rows.history[n - 1 - k];
            assert(latest_plays(self.tables(), limit as int)[k as int] == p@);
            r.push(
                ScrobbleRow {
                    title: p.title.clone(),
                    artist: p.artist.clone(),
                    album: p.album.clone(),
                    date: p.date.clone(),
                },
            );
            k = k + 1;
        }
        r
    }

    /// The most played artists; all of them where `limit` is negative.
    pub fn top_artists(&self, limit: i64) -> (r: Vec<StatRow>)
        requires
            self.wf(),
        ensures
            stat_views(r@) == artist_ranking(self.tables(), limit as int),
    {
        rank_plays(&self.rows.history, Grouping::Artist, true, limit)
    }

    /// The most played tracks; all of them where `limit` is negative.
    pub fn top_tracks(&self, limit: i64) -> (r: Vec<StatRow>)
        requires
            self.wf(),
        ensures
            stat_views(r@) == track_ranking(self.tables(), limit as int),
    {
        rank_plays(&self.rows.history, Grouping::Track, false, limit)
    }

    /// The most played albums; all of them where `limit` is negative. Plays without an album do
    /// not count.
    pub fn top_albums(&self, limit: i64) -> (r: Vec<StatRow>)
        requires
            self.wf(),
        ensures
            stat_views(r@) == album_ranking(self.tables(), limit as int),
    {
        rank_plays(&select_plays(&self.rows.history, true), Grouping::Album, true, limit)
    }

    /// The number of different artists that were played.
    pub fn unique_artists(&self) -> (n: i64)
        requires
            self.wf(),
        ensures
            n == artist_count(self.tables()),
    {
        let keys: Vec<Vec<i64>> = keys_of_plays(&self.rows.history, &Grouping::Artist);
        let firsts: Vec<usize> = first_rows(&keys);
        proof {
            assert(keys.len() == key_views(keys@).len());
            lemma_first_indices(key_views(keys@));
        }
        firsts.len() as i64
    }

    /// The number of plays.
    pub fn total_plays(&self) -> (n: i64)
        requires
            self.wf(),
        ensures
            n == self.tables().history.len(),
    {
        self.rows.history.len() as i64
    }

    /// The songs played last, the latest first, none of them twice: title, artist and path. All of
    /// them where `limit` is negative.
    pub fn recent_songs(&self, limit: i64) -> (r: Vec<(String, String, String)>)
        requires
            self.wf(),
        ensures
            r@.len() == latest_songs(self.tables(), limit as int).len(),
            forall|k: int|
                0 <= k < r@.len() ==> {
                    let p = latest_songs(self.tables(), limit as int)[k];
                    &&& (#[trigger] r@[k]).0@ == p.title
                    &&& r@[k].1@ == p.artist
                    &&& p.path == Some(r@[k].2@)
                },
    {
        let rows: Vec<PlayRecord> = select_plays(&self.rows.history, false);
        let ghost forward = play_views(rows@);
        let ghost plays = forward.reverse();
        let n: usize = rows.len();
        let mut keys: Vec<Vec<i64>> = Vec::new();
        proof {
            lemma_filter_places(self.tables().history, |p: PlayData| p.path is Some);
            assert forall|a: int| 0 <= a < n implies (#[trigger] rows@[a])@.path is Some by {
                assert(forward[a] == rows@[a]@);
            }
        }
        let mut i: usize = 0;
        while i < n
            invariant
                i <= n,
                n == rows@.len(),
                forward == play_views(rows@),
                plays == forward.reverse(),
                forall|a: int| 0 <= a < n ==> (#[trigger] rows@[a])@.path is Some,
                keys@.len() == i,
                key_views(keys@) == play_song_keys(plays).take(i as int),
            decreases n - i,
        {
            let row: &PlayRecord = &rows[n - 1 - i];
            assert(plays[i as int] == row@);
            assert(rows@[n - 1 - i]@.path is Some);
            let mut key: Vec<i64> = pair_key_of(row.title.as_str(), row.artist.as_str());
            key.push(-1);
            if let Some(p) = &row.path {
                push_text(&mut key, p.as_str());
            }
            proof {
                lemma_key_views_push(keys@, key);
            }
            keys.push(key);
            i = i + 1;
            assert(key_views(keys@) =~= play_song_keys(plays).take(i as int));
        }
        assert(play_song_keys(plays).take(i as int) =~= play_song_keys(plays));
        let mut firsts: Vec<usize> = first_rows(&keys);
        proof {
            assert(keys.len() == key_views(keys@).len());
            lemma_first_indices(key_views(keys@));
        }
        keep_first(&mut firsts, limit);
        let mut r: Vec<(String, String, String)> = Vec::new();
        let mut k: usize = 0;
        while k < firsts.len()
            invariant
                k <= firsts.len(),
                n == rows@.len(),
                forward == play_views(rows@),
                plays == forward.reverse(),
                forall|a: int| 0 <= a < n ==> (#[trigger] rows@[a])@.path is Some,
                forall|m: int| 0 <= m < firsts@.len() ==> #[trigger] firsts@[m] < n,
                r@.len() == k,
                forall|m: int|
                    0 <= m < k ==> {
                        let p = plays[firsts@[m] as int];
                        &&& (#[trigger] r@[m]).0@ == p.title
                        &&& r@[m].1@ == p.artist
                        &&& p.path == Some(r@[m].2@)
                    },
            decreases firsts.len() - k,
        {
            assert(firsts@[k as int] < n);
            let row: &PlayRecord = &rows[n - 1 - firsts[k]];
            assert(plays[firsts@[k as int] as int] == row@);
            assert(rows@[n - 1 - firsts@[k as int]]@.path is Some);
            let path: String = match &row.path {
                Some(p) => p.clone(),
                None => String::new(),
            };
            r.push((row.title.clone(), row.artist.clone(), path));
            k = k + 1;
        }
        r
    }

    /// The number of plays on a day.
    fn count_on(&self, day: &str) -> (n: i64)
        requires
            self.wf(),
        ensures
            n == plays_on(self.tables().history, day@),
    {
        let ghost all = self.tables().history;
        let ghost keep = |p: PlayData| p.day == Some(day@);
        let wanted: String = day.to_owned();
        let mut n: i64 = 0;
        let mut i: usize = 0;
        assert(all.take(0).filter(keep) == Seq::<PlayData>::empty()) by {
            reveal(Seq::filter);
        }
        while i < self.rows.history.len()
            invariant
                i <= self.rows.history.len(),
                all == play_views(self.rows.history@),
                all.len() <= i64::MAX,
                wanted@ == day@,
                keep == |p: PlayData| p.day == Some(day@),
                0 <= n <= i,
                n == all.take(i as int).filter(keep).len(),
            decreases self.rows.history.len() - i,
        {
            proof {
                lemma_filter_step(all, keep, i as int);
            }
            assert(all[i as int] == self.rows.history@[i as int]@);
            let same: bool = match &self.rows.history[i].day {
                Some(d) => *d == wanted,
                None => false,
            };
            if same {
                n = n + 1;
            }
            i = i + 1;
        }
        assert(all.take(i as int) =~= all);
        n
    }

    /// The number of plays on the day `today`, written `YYYY-MM-DD`.
    pub fn plays_today(&self, today: &str) -> (n: i64)
        requires
            self.wf(),
        ensures
            n == plays_on(self.tables().history, today@),
    {
        self.count_on(today)
    }

    /// The number of plays on each of the given days, written `YYYY-MM-DD`, under the label
    /// `DD/MM`.
    pub fn plays_per_day(&self, days: &Vec<String>) -> (r: Vec<StatRow>)
        requires
            self.wf(),
            forall|k: int| 0 <= k < days@.len() ==> (#[trigger] days@[k])@.len() == 10,
        ensures
            r@.len() == days@.len(),
            forall|k: int|
                0 <= k < r@.len() ==> {
                    &&& (#[trigger] r@[k]).name@ == day_label(days@[k]@)
                    &&& r@[k].count == plays_on(self.tables().history, days@[k]@)
                },
    {
        let mut r: Vec<StatRow> = Vec::new();
        let mut k: usize = 0;
        while k < days.len()
            invariant
                k <= days.len(),
                self.wf(),
                forall|m: int| 0 <= m < days@.len() ==> (#[trigger] days@[m])@.len() == 10,
                r@.len() == k,
                forall|m: int|
                    0 <= m < k ==> {
                        &&& (#[trigger] r@[m]).name@ == day_label(days@[m]@)
                        &&& r@[m].count == plays_on(self.tables().history, days@[m]@)
                    },
            decreases days.len() - k,
        {
            assert(days@[k as int]@.len() == 10);
            let day: &str = days[k].as_str();
            let mut name: String = day.substring_char(8, 10).to_owned();
            proof {
                reveal_strlit("/");
            }
            name.append("/");
            name.append(day.substring_char(5, 7));
            assert(name@ =~= day_label(day@));
            let count: i64 = self.count_on(day);
            r.push(StatRow { name, count });
            k = k + 1;
        }
        r
    }
}

/// How many days before today each of the last `days` days is, the oldest first; none where there
/// are no such days.
pub fn day_offsets(days: i64) -> (r: Option<Vec<i64>>)
    ensures
        match r {
            Some(v) => {
                &&& days > 0
                &&& v@.len() == days
                &&& forall|k: int| 0 <= k < days ==> #[trigger] v@[k] == days - 1 - k
            },
            None => days <= 0,
        },
{
    if days <= 0 {
        return None;
    }
    let mut v: Vec<i64> = Vec::new();
    let mut left: i64 = days;
    while left > 0
        invariant
            0 <= left <= days,
            v@.len() == days - left,
            forall|k: int| 0 <= k < days - left ==> #[trigger] v@[k] == days - 1 - k,
        decreases left,
    {
        left = left - 1;
        v.push(left);
    }
    Some(v)
}

} // verus!
