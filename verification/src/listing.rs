//! What the store lists: the playlists, the playlists played last, and the songs of the library.

use vstd::prelude::*;

use crate::db::access_pairs;
use crate::db::find_access;
use crate::db::Db;
use crate::db::DbError;
use crate::order::arranged;
use crate::order::key_views;
use crate::order::lemma_filter_step;
use crate::order::limited;
use crate::order::order_by;
use crate::order::ordered_by;
use crate::playlists::entries_of;
use crate::playlists::text_views;
use crate::tables::entry_views;
use crate::tables::lemma_map_of;
use crate::tables::map_of;
use crate::tables::play_views;
use crate::tables::playlist_views;
use crate::tables::text_view;
use crate::tables::Change;
use crate::tables::ChangeData;
use crate::tables::EntryData;
use crate::tables::PlayData;
use crate::tables::PlaylistData;
use crate::tables::Tables;
use crate::tally::first_indices;
use crate::tally::first_rows;
use crate::tally::group_rows;
use crate::tally::groups_by_key;
use crate::tally::keep_first;
use crate::tally::key_of;
use crate::tally::lemma_first_indices;
use crate::tally::lemma_key_views_push;
use crate::tally::pick;
use crate::tally::push_text;
use crate::tally::text_key;
use crate::text::chars_of;

verus! {

/// A playlist as it is listed.
pub struct PlaylistRow {
    pub id: i64,
    pub name: String,
    pub cover: Option<String>,
    pub song_count: i64,
}

impl PlaylistRow {
    /// The row shows the playlist, with the number of its songs.
    pub open spec fn shows(self, t: Tables, p: PlaylistData) -> bool {
        &&& self.id == p.id
        &&& self.name@ == p.name
        &&& text_view(self.cover) == p.cover
        &&& self.song_count == entries_of(t, p.id).len()
    }
}

/// The number of a character where the letters A to Z count as a to z.
pub open spec fn folded(c: char) -> i64 {
    if 'A' <= c <= 'Z' {
        (c as i64 + 32) as i64
    } else {
        c as i64
    }
}

/// The number of bytes that a character takes in UTF-8.
pub open spec fn utf8_width(c: char) -> nat {
    if c <= '\u{7f}' {
        1
    } else if c <= '\u{7ff}' {
        2
    } else if c <= '\u{ffff}' {
        3
    } else {
        4
    }
}

/// The number of bytes that a text takes in UTF-8.
pub open spec fn utf8_len(s: Seq<char>) -> nat
    decreases s.len(),
{
    if s.len() == 0 {
        0
    } else {
        utf8_len(s.drop_last()) + utf8_width(s.last())
    }
}

/// The place of the first NUL character; the length where there is none.
pub open spec fn first_nul(s: Seq<char>) -> int
    decreases s.len(),
{
    if s.len() == 0 || s[0] == '\0' {
        0
    } else {
        1 + first_nul(s.drop_first())
    }
}

/// A text as a key in which the letters A to Z count as a to z. Of a text with a NUL character only
/// what stands before it is looked at, and then how many bytes the text has: a zero for each.
pub open spec fn folded_key(s: Seq<char>) -> Seq<i64> {
    let seen = s.take(first_nul(s)).map_values(|c: char| folded(c));
    if first_nul(s) < s.len() {
        seen + zeros(utf8_len(s))
    } else {
        seen
    }
}

/// So many zeros.
pub open spec fn zeros(n: nat) -> Seq<i64> {
    Seq::new(n, |i: int| 0i64)
}

/// The keys that order playlists by name.
pub open spec fn playlist_name_keys(rows: Seq<PlaylistData>) -> Seq<Seq<i64>> {
    rows.map_values(|p: PlaylistData| folded_key(p.name))
}

/// The playlists by name.
pub open spec fn playlists_by_name(t: Tables) -> Seq<PlaylistData> {
    ordered_by(t.playlists, playlist_name_keys(t.playlists), false)
}

/// The keys that order playlists by their last access; never played comes before all others.
pub open spec fn access_keys(t: Tables) -> Seq<Seq<i64>> {
    t.playlists.map_values(
        |p: PlaylistData|
            if t.accessed.contains_key(p.id) {
                seq![1i64] + text_key(t.accessed[p.id])
            } else {
                Seq::empty()
            },
    )
}

/// The playlists played last, the latest first; those never played come at the end.
pub open spec fn latest_playlists(t: Tables, limit: int) -> Seq<PlaylistData> {
    limited(ordered_by(t.playlists, access_keys(t), true), limit)
}

/// The keys that group songs by path.
pub open spec fn path_keys(rows: Seq<EntryData>) -> Seq<Seq<i64>> {
    rows.map_values(|e: EntryData| text_key(e.path))
}

/// The paths of the given rows.
pub open spec fn paths_at(rows: Seq<EntryData>, places: Seq<usize>) -> Seq<Seq<char>> {
    places.map_values(|i: usize| rows[i as int].path)
}

/// The number of the last play of a file.
pub open spec fn last_play(history: Seq<PlayData>, path: Seq<char>) -> Option<i64>
    decreases history.len(),
{
    if history.len() == 0 {
        None
    } else if history.last().path == Some(path) {
        Some(history.last().id)
    } else {
        last_play(history.drop_last(), path)
    }
}

/// The keys that order songs by their last play; never played comes before all others.
pub open spec fn last_play_keys(t: Tables, places: Seq<usize>) -> Seq<Seq<i64>> {
    places.map_values(
        |i: usize|
            match last_play(t.history, t.entries[i as int].path) {
                Some(id) => seq![id],
                None => Seq::empty(),
            },
    )
}

/// The paths of all songs, each once. In sort mode 1 those added last come first, in mode 2 those
/// played last and then those never played; in any other mode those added first come first.
pub open spec fn all_paths(t: Tables, sort: i32) -> Seq<Seq<char>> {
    let keys = path_keys(t.entries);
    if sort == 1 {
        paths_at(t.entries, first_indices(keys)).reverse()
    } else if sort == 2 {
        let groups = groups_by_key(keys, false);
        paths_at(t.entries, ordered_by(groups, last_play_keys(t, groups), true))
    } else {
        paths_at(t.entries, first_indices(keys))
    }
}

/// Appends a zero for each byte that a character takes in UTF-8.
fn push_zeros(key: &mut Vec<i64>, c: char)
    ensures
        final(key)@ == old(key)@ + zeros(utf8_width(c)),
{
    key.push(0);
    if c >= '\u{80}' {
        key.push(0);
    }
    if c >= '\u{800}' {
        key.push(0);
    }
    if c >= '\u{10000}' {
        key.push(0);
    }
    assert(key@ =~= old(key)@ + zeros(utf8_width(c)));
}

fn folded_key_of(s: &str) -> (key: Vec<i64>)
    ensures
        key@ == folded_key(s@),
{
    let chars: Vec<char> = chars_of(s);
    let mut key: Vec<i64> = Vec::new();
    let mut i: usize = 0;
    assert(chars@.skip(0) =~= chars@);
    while i < chars.len() && chars[i] != '\0'
        invariant
            i <= chars.len(),
            chars@ == s@,
            first_nul(s@) == i + first_nul(s@.skip(i as int)),
            key@ == s@.take(i as int).map_values(|c: char| folded(c)),
        decreases chars.len() - i,
    {
        let c: char = chars[i];
        assert(s@.skip(i as int)[0] == s@[i as int]);
        assert(s@.skip(i as int).drop_first() =~= s@.skip(i + 1));
        if 'A' <= c && c <= 'Z' {
            key.push(c as i64 + 32);
        } else {
            key.push(c as i64);
        }
        i = i + 1;
        assert(key@ =~= s@.take(i as int).map_values(|c: char| folded(c)));
    }
    if i < chars.len() {
        assert(s@.skip(i as int)[0] == s@[i as int]);
    }
    assert(first_nul(s@) == i);
    if i < chars.len() {
        let ghost seen = key@;
        let mut k: usize = 0;
        assert(key@ =~= seen + zeros(0));
        while k < chars.len()
            invariant
                k <= chars.len(),
                chars@ == s@,
                key@ == seen + zeros(utf8_len(s@.take(k as int))),
            decreases chars.len() - k,
        {
            let ghost before = key@;
            push_zeros(&mut key, chars[k]);
            assert(s@.take(k + 1).drop_last() =~= s@.take(k as int));
            assert(s@.take(k + 1).last() == s@[k as int]);
            assert(key@ =~= seen + zeros(utf8_len(s@.take(k + 1))));
            k = k + 1;
        }
        assert(s@.take(k as int) =~= s@);
    }
    key
}

impl Db {
    /// The number of songs of a playlist.
    fn song_count(&self, playlist_id: i64) -> (n: i64)
        requires
            self.wf(),
        ensures
            n == entries_of(self.tables(), playlist_id).len(),
    {
        let ghost all = self.tables().entries;
        let ghost keep = |e: EntryData| e.playlist_id == playlist_id;
        let mut n: i64 = 0;
        let mut i: usize = 0;
        assert(all.take(0).filter(keep) == Seq::<EntryData>::empty()) by {
            reveal(Seq::filter);
        }
        while i < self.rows.entries.len()
            invariant
                i <= self.rows.entries.len(),
                all == entry_views(self.rows.entries@),
                all.len() <= i64::MAX,
                keep == |e: EntryData| e.playlist_id == playlist_id,
                0 <= n <= i,
                n == all.take(i as int).filter(keep).len(),
            decreases self.rows.entries.len() - i,
        {
            proof {
                lemma_filter_step(all, keep, i as int);
            }
            assert(all[i as int] == self.rows.entries@[i as int]@);
            if self.rows.entries[i].playlist_id == playlist_id {
                n = n + 1;
            }
            i = i + 1;
        }
        assert(all.take(i as int) =~= all);
        n
    }

    /// The playlists by name, the letters A to Z in whatever case.
    pub fn list_playlists(&self) -> (r: Vec<PlaylistRow>)
        requires
            self.wf(),
        ensures
            r@.len() == self.tables().playlists.len(),
            r@.len() == playlists_by_name(self.tables()).len(),
            forall|k: int|
                0 <= k < r@.len() ==> (#[trigger] r@[k]).shows(
                    self.tables(),
                    playlists_by_name(self.tables())[k],
                ),
    {
        let ghost t = self.tables();
        let mut keys: Vec<Vec<i64>> = Vec::new();
        let mut i: usize = 0;
        while i < self.rows.playlists.len()
            invariant
                i <= self.rows.playlists.len(),
                keys@.len() == i,
                t.playlists == playlist_views(self.rows.playlists@),
                key_views(keys@) == playlist_name_keys(t.playlists).take(i as int),
            decreases self.rows.playlists.len() - i,
        {
            let key: Vec<i64> = folded_key_of(self.rows.playlists[i].name.as_str());
            proof {
                lemma_key_views_push(keys@, key);
            }
            keys.push(key);
            i = i + 1;
            assert(key_views(keys@) =~= playlist_name_keys(t.playlists).take(i as int));
        }
        assert(playlist_name_keys(t.playlists).take(i as int) =~= playlist_name_keys(t.playlists));
        let order: Vec<usize> = order_by(&keys, false);
        let mut r: Vec<PlaylistRow> = Vec::new();
        let mut k: usize = 0;
        while k < order.len()
            invariant
                k <= order.len(),
                self.wf(),
                t == self.tables(),
                forall|m: int|
                    0 <= m < order@.len() ==> #[trigger] order@[m] < self.rows.playlists@.len(),
                r@.len() == k,
                forall|m: int|
                    0 <= m < k ==> (#[trigger] r@[m]).shows(t, arranged(t.playlists, order@)[m]),
            decreases order.len() - k,
        {
            assert(order@[k as int] < self.rows.playlists@.len());
            let row: usize = order[k];
            let id: i64 = self.rows.playlists[row].id;
            let cover: Option<String> = match &self.rows.playlists[row].cover {
                Some(c) => Some(c.clone()),
                None => None,
            };
            let name: String = self.rows.playlists[row].name.clone();
            let song_count: i64 = self.song_count(id);
            assert(arranged(t.playlists, order@)[k as int] == self.rows.playlists@[row as int]@);
            r.push(PlaylistRow { id, name, cover, song_count });
            k = k + 1;
        }
        r
    }

    /// Notes that a playlist is played.
    pub fn track_playlist_access(&mut self, playlist_id: i64, now: &str) -> (r: Result<
        (),
        DbError,
    >)
        requires
            old(self).wf(),
        ensures
            final(self).wf(),
            if old(self).tables().has_playlist(playlist_id) {
                &&& r is Ok
                &&& final(self).after(
                    old(self),
                    Some(ChangeData::SetAccessed { playlist_id, last_played: now@ }),
                )
            } else {
                &&& r == Err::<(), DbError>(DbError::ForeignKey)
                &&& final(self).after(old(self), None)
            },
    {
        if !self.rows.has_playlist(playlist_id) {
            return Err(DbError::ForeignKey);
        }
        self.commit(Change::SetAccessed { playlist_id, last_played: now.to_owned() });
        Ok(())
    }

    /// The playlists played last, the latest first, those never played at the end: their numbers
    /// and names. All of them where `limit` is negative.
    pub fn recent_playlists(&self, limit: i64) -> (r: Vec<(i64, String)>)
        requires
            self.wf(),
        ensures
            r@.len() == latest_playlists(self.tables(), limit as int).len(),
            forall|k: int|
                0 <= k < r@.len() ==> {
                    let p = latest_playlists(self.tables(), limit as int)[k];
                    &&& (#[trigger] r@[k]).0 == p.id
                    &&& r@[k].1@ == p.name
                },
    {
        let ghost t = self.tables();
        let ghost pairs = access_pairs(self.rows.accessed@);
        proof {
            lemma_map_of(pairs);
        }
        let mut keys: Vec<Vec<i64>> = Vec::new();
        let mut i: usize = 0;
        while i < self.rows.playlists.len()
            invariant
                i <= self.rows.playlists.len(),
                keys@.len() == i,
                t == self.tables(),
                pairs == access_pairs(self.rows.accessed@),
                forall|k: int|
                    0 <= k < pairs.len() ==> map_of(pairs).contains_key((#[trigger] pairs[k]).0)
                        && map_of(pairs)[pairs[k].0] == pairs[k].1,
                forall|id: i64| #[trigger]
                    map_of(pairs).contains_key(id) ==> exists|k: int|
                        0 <= k < pairs.len() && (#[trigger] pairs[k]).0 == id,
                key_views(keys@) == access_keys(t).take(i as int),
            decreases self.rows.playlists.len() - i,
        {
            let mut key: Vec<i64> = Vec::new();
            let id: i64 = self.rows.playlists[i].id;
            assert(t.playlists[i as int].id == id);
            match find_access(&self.rows.accessed, id) {
                Some(k) => {
                    assert(pairs[k as int].0 == id);
                    key.push(1);
                    push_text(&mut key, self.rows.accessed[k].last_played.as_str());
                    assert(key@ =~= seq![1i64] + text_key(t.accessed[id]));
                },
                None => {
                    proof {
                        if map_of(pairs).contains_key(id) {
                            let k = choose|k: int|
                                0 <= k < pairs.len() && (#[trigger] pairs[k]).0 == id;
                            assert(self.rows.accessed@[k].playlist_id == id);
                        }
                    }
                },
            }
            proof {
                lemma_key_views_push(keys@, key);
                assert(key@ =~= access_keys(t)[i as int]);
            }
            keys.push(key);
            i = i + 1;
            assert(key_views(keys@) =~= access_keys(t).take(i as int));
        }
        assert(access_keys(t).take(i as int) =~= access_keys(t));
        let mut order: Vec<usize> = order_by(&keys, true);
        let ghost full = order@;
        keep_first(&mut order, limit);
        assert(latest_playlists(t, limit as int) =~= arranged(t.playlists, order@));
        let mut r: Vec<(i64, String)> = Vec::new();
        let mut k: usize = 0;
        while k < order.len()
            invariant
                k <= order.len(),
                t == self.tables(),
                forall|m: int|
                    0 <= m < order@.len() ==> #[trigger] order@[m] < self.rows.playlists@.len(),
                r@.len() == k,
                forall|m: int|
                    0 <= m < k ==> {
                        let p = arranged(t.playlists, order@)[m];
                        &&& (#[trigger] r@[m]).0 == p.id
                        &&& r@[m].1@ == p.name
                    },
            decreases order.len() - k,
        {
            assert(order@[k as int] < self.rows.playlists@.len());
            let row: usize = order[k];
            assert(arranged(t.playlists, order@)[k as int] == self.rows.playlists@[row as int]@);
            r.push((self.rows.playlists[row].id, self.rows.playlists[row].name.clone()));
            k = k + 1;
        }
        r
    }

    /// The number of the last play of a file, as a key.
    fn last_play_key(&self, path: &String) -> (key: Vec<i64>)
        ensures
            key@ == (match last_play(self.tables().history, path@) {
                Some(id) => seq![id],
                None => Seq::empty(),
            }),
    {
        let ghost history = self.tables().history;
        let mut key: Vec<i64> = Vec::new();
        let mut i: usize = self.rows.history.len();
        assert(history.take(i as int) =~= history);
        while i > 0
            invariant
                i <= self.rows.history.len(),
                history == play_views(self.rows.history@),
                key@.len() == 0,
                last_play(history, path@) == last_play(history.take(i as int), path@),
            decreases i,
        {
            i = i - 1;
            assert(history.take(i + 1).last() == self.rows.history@[i as int]@);
            assert(history.take(i + 1).drop_last() =~= history.take(i as int));
            let same: bool = match &self.rows.history[i].path {
                Some(p) => *p == *path,
                None => false,
            };
            if same {
                key.push(self.rows.history[i].id);
                assert(key@ =~= seq![self.rows.history@[i as int].id]);
                return key;
            }
        }
        assert(key@ =~= Seq::<i64>::empty());
        key
    }

    /// The paths of all songs, each once: the library on this device. In sort mode 1 those added
    /// last come first, in mode 2 those played last; in any other mode those added first.
    pub fn library_paths(&self, sort: i32) -> (r: Vec<String>)
        requires
            self.wf(),
        ensures
            text_views(r@) == all_paths(self.tables(), sort),
    {
        let ghost t = self.tables();
        let mut keys: Vec<Vec<i64>> = Vec::new();
        let mut i: usize = 0;
        while i < self.rows.entries.len()
            invariant
                i <= self.rows.entries.len(),
                keys@.len() == i,
                t.entries == entry_views(self.rows.entries@),
                key_views(keys@) == path_keys(t.entries).take(i as int),
            decreases self.rows.entries.len() - i,
        {
            let key: Vec<i64> = key_of(self.rows.entries[i].path.as_str());
            proof {
                lemma_key_views_push(keys@, key);
            }
            keys.push(key);
            i = i + 1;
            assert(key_views(keys@) =~= path_keys(t.entries).take(i as int));
        }
        assert(path_keys(t.entries).take(i as int) =~= path_keys(t.entries));
        proof {
            assert(keys.len() == key_views(keys@).len());
            lemma_first_indices(key_views(keys@));
        }
        if sort == 2 {
            let groups: Vec<usize> = group_rows(&keys, false);
            let mut plays: Vec<Vec<i64>> = Vec::new();
            let mut k: usize = 0;
            while k < groups.len()
                invariant
                    k <= groups.len(),
                    t == self.tables(),
                    forall|m: int|
                        0 <= m < groups@.len() ==> #[trigger] groups@[m] < self.rows.entries@.len(),
                    plays@.len() == k,
                    key_views(plays@) == last_play_keys(t, groups@).take(k as int),
                decreases groups.len() - k,
            {
                assert(groups@[k as int] < self.rows.entries@.len());
                let row: usize = groups[k];
                assert(t.entries[row as int].path == self.rows.entries@[row as int].path@);
                let key: Vec<i64> = self.last_play_key(&self.rows.entries[row].path);
                proof {
                    lemma_key_views_push(plays@, key);
                }
                plays.push(key);
                k = k + 1;
                assert(key_views(plays@) =~= last_play_keys(t, groups@).take(k as int));
            }
            assert(last_play_keys(t, groups@).take(k as int) =~= last_play_keys(t, groups@));
            let order: Vec<usize> = order_by(&plays, true);
            let ranked: Vec<usize> = pick(&groups, &order);
            assert forall|m: int| 0 <= m < ranked@.len() implies #[trigger] ranked@[m]
                < self.rows.entries@.len() by {
                assert(ranked@[m] == groups@[order@[m] as int]);
                assert(order@[m] < groups@.len());
            }
            self.paths_of_rows(&ranked, false)
        } else {
            let firsts: Vec<usize> = first_rows(&keys);
            self.paths_of_rows(&firsts, sort == 1)
        }
    }

    /// The paths of the given song rows, the last one first where `backwards` is set.
    fn paths_of_rows(&self, places: &Vec<usize>, backwards: bool) -> (r: Vec<String>)
        requires
            forall|m: int|
                0 <= m < places@.len() ==> #[trigger] places@[m] < self.rows.entries@.len(),
        ensures
            text_views(r@) == (if backwards {
                paths_at(self.tables().entries, places@).reverse()
            } else {
                paths_at(self.tables().entries, places@)
            }),
    {
        let ghost t = self.tables();
        let n: usize = places.len();
        let mut r: Vec<String> = Vec::new();
        let mut k: usize = 0;
        while k < n
            invariant
                k <= n,
                n == places@.len(),
                t.entries == entry_views(self.rows.entries@),
                forall|m: int|
                    0 <= m < places@.len() ==> #[trigger] places@[m] < self.rows.entries@.len(),
                r@.len() == k,
                forall|m: int|
                    0 <= m < k ==> (#[trigger] r@[m])@ == paths_at(t.entries, places@)[if backwards {
                        n - 1 - m
                    } else {
                        m
                    }],
            decreases n - k,
        {
            let at: usize = if backwards {
                n - 1 - k
            } else {
                k
            };
            assert(places@[at as int] < self.rows.entries@.len());
            r.push(self.rows.entries[places[at]].path.clone());
            k = k + 1;
        }
        if backwards {
            assert(text_views(r@) =~= paths_at(t.entries, places@).reverse());
        } else {
            assert(text_views(r@) =~= paths_at(t.entries, places@));
        }
        r
    }
}

} // verus!
