//! Playlists and their songs: creating, renaming, reordering.

use vstd::prelude::*;

use crate::db::lemma_after_all_push;
use crate::db::lemma_after_none;
use crate::db::Db;
use crate::db::DbError;
use crate::listing::all_paths;
use crate::order::arranged;
use crate::order::key_views;
use crate::order::lemma_filter_step;
use crate::order::order_by;
use crate::order::ordered_by;
use crate::playlist_laws::law_moved_song_reads_back;
use crate::playlist_laws::law_removed_song_reads_back;
use crate::tables::entry_views;
use crate::tables::lemma_filter_places;
use crate::tables::Change;
use crate::tables::ChangeData;
use crate::tables::EntryData;
use crate::tables::EntryRecord;
use crate::tables::Tables;
use crate::tally::lemma_key_views_push;

verus! {

/// The song rows of a playlist.
pub open spec fn entries_of(t: Tables, playlist_id: i64) -> Seq<EntryData> {
    t.entries.filter(|e: EntryData| e.playlist_id == playlist_id)
}

/// The keys that order songs by position.
pub open spec fn position_keys(rows: Seq<EntryData>) -> Seq<Seq<i64>> {
    rows.map_values(|e: EntryData| seq![e.position])
}

/// The paths of song rows.
pub open spec fn paths_of(rows: Seq<EntryData>) -> Seq<Seq<char>> {
    rows.map_values(|e: EntryData| e.path)
}

/// The song rows of a playlist, by position.
pub open spec fn song_rows(t: Tables, playlist_id: i64) -> Seq<EntryData> {
    let rows = entries_of(t, playlist_id);
    ordered_by(rows, position_keys(rows), false)
}

/// The songs of a playlist, by position.
pub open spec fn songs_of(t: Tables, playlist_id: i64) -> Seq<Seq<char>> {
    paths_of(song_rows(t, playlist_id))
}

/// The numbers of song rows.
pub open spec fn rowids_of(rows: Seq<EntryData>) -> Seq<i64> {
    rows.map_values(|e: EntryData| e.rowid)
}

/// The change that moves a song of a playlist: its songs get new positions, and nothing else.
pub open spec fn moving(t: Tables, playlist_id: i64, from: int, to: int) -> ChangeData {
    let rows = song_rows(t, playlist_id);
    ChangeData::SetPositions { rowids: rowids_of(rows.remove(from).insert(to, rows[from])) }
}

/// The changes that remove a song of a playlist: its row leaves, and the other songs of the
/// playlist get new positions.
pub open spec fn removing(t: Tables, playlist_id: i64, index: int) -> Seq<ChangeData> {
    let rows = song_rows(t, playlist_id);
    seq![
        ChangeData::DeleteEntry { rowid: rows[index].rowid },
        ChangeData::SetPositions { rowids: rowids_of(rows.remove(index)) },
    ]
}

/// The song rows are the same but for their positions.
pub open spec fn same_but_positions(before: Seq<EntryData>, after: Seq<EntryData>) -> bool {
    &&& after.len() == before.len()
    &&& forall|i: int|
        0 <= i < after.len() ==> #[trigger] after[i] == (EntryData {
            position: after[i].position,
            ..before[i]
        })
}

/// The row number that a new song gets.
pub open spec fn next_rowid(rows: Seq<EntryData>) -> int {
    if rows.len() == 0 {
        1
    } else {
        rows.last().rowid + 1
    }
}

/// The largest position; -1 where there are no rows.
pub open spec fn top_position(rows: Seq<EntryData>) -> int
    decreases rows.len(),
{
    if rows.len() == 0 {
        -1
    } else if rows.len() == 1 {
        rows[0].position as int
    } else {
        let top = top_position(rows.drop_last());
        if rows.last().position > top {
            rows.last().position as int
        } else {
            top
        }
    }
}

/// There is no number for another song row, or the songs could no longer be counted.
pub open spec fn entries_are_full(rows: Seq<EntryData>) -> bool {
    next_rowid(rows) > i64::MAX || rows.len() >= i64::MAX
}

/// The characters of texts.
pub open spec fn text_views(texts: Seq<String>) -> Seq<Seq<char>> {
    texts.map_values(|s: String| s@)
}

impl Db {
    /// Creates a playlist and returns its number. Numbers are never given twice.
    pub fn create_playlist(&mut self, name: &str) -> (r: Result<i64, DbError>)
        requires
            old(self).wf(),
        ensures
            final(self).wf(),
            match r {
                Ok(id) => {
                    &&& id == old(self).tables().playlist_seq + 1
                    &&& final(self).after(
                        old(self),
                        Some(ChangeData::InsertPlaylist { id, name: name@ }),
                    )
                },
                Err(e) => {
                    &&& e is Full
                    &&& old(self).tables().playlist_seq == i64::MAX
                    &&& final(self).after(old(self), None)
                },
            },
    {
        if self.rows.playlist_seq == i64::MAX {
            return Err(DbError::Full);
        }
        let id: i64 = self.rows.playlist_seq + 1;
        self.commit(Change::InsertPlaylist { id, name: name.to_owned() });
        Ok(id)
    }

    /// Deletes a playlist with its songs. Does nothing where there is no such playlist.
    pub fn delete_playlist(&mut self, id: i64)
        requires
            old(self).wf(),
        ensures
            final(self).wf(),
            final(self).after(old(self), Some(ChangeData::DeletePlaylist { id })),
    {
        self.commit(Change::DeletePlaylist { id });
    }

    /// Gives a playlist another name. Does nothing where there is no such playlist.
    pub fn rename_playlist(&mut self, id: i64, name: &str)
        requires
            old(self).wf(),
        ensures
            final(self).wf(),
            final(self).after(old(self), Some(ChangeData::RenamePlaylist { id, name: name@ })),
    {
        self.commit(Change::RenamePlaylist { id, name: name.to_owned() });
    }

    /// Gives a playlist a cover. Does nothing where there is no such playlist.
    pub fn set_playlist_cover(&mut self, id: i64, cover_path: &str)
        requires
            old(self).wf(),
        ensures
            final(self).wf(),
            final(self).after(old(self), Some(ChangeData::SetCover { id, cover: cover_path@ })),
    {
        self.commit(Change::SetCover { id, cover: cover_path.to_owned() });
    }

    /// The song rows of a playlist, by position.
    fn rows_by_position(&self, playlist_id: i64) -> (r: Vec<EntryRecord>)
        requires
            self.wf(),
        ensures
            entry_views(r@) == song_rows(self.tables(), playlist_id),
            r@.len() == entries_of(self.tables(), playlist_id).len(),
            r@.len() <= self.tables().entries.len(),
    {
        let ghost all = self.tables().entries;
        let ghost keep = |e: EntryData| e.playlist_id == playlist_id;
        let mut rows: Vec<EntryRecord> = Vec::new();
        let mut keys: Vec<Vec<i64>> = Vec::new();
        let mut i: usize = 0;
        assert(all.take(0).filter(keep) == Seq::<EntryData>::empty()) by {
            reveal(Seq::filter);
        }
        assert(entry_views(rows@) =~= Seq::<EntryData>::empty());
        assert(key_views(keys@) =~= position_keys(entry_views(rows@)));
        while i < self.rows.entries.len()
            invariant
                i <= self.rows.entries.len(),
                all == entry_views(self.rows.entries@),
                keep == |e: EntryData| e.playlist_id == playlist_id,
                entry_views(rows@) == all.take(i as int).filter(keep),
                key_views(keys@) == position_keys(entry_views(rows@)),
            decreases self.rows.entries.len() - i,
        {
            proof {
                lemma_filter_step(all, keep, i as int);
            }
            let row: &EntryRecord = &self.rows.entries[i];
            assert(all[i as int] == row@);
            if row.playlist_id == playlist_id {
                let mut key: Vec<i64> = Vec::new();
                key.push(row.position);
                let ghost before = rows@;
                let copy: EntryRecord = row.clone();
                rows.push(copy);
                proof {
                    lemma_key_views_push(keys@, key);
                    assert(entry_views(rows@) =~= entry_views(before).push(copy@));
                    assert(key@ =~= seq![copy@.position]);
                }
                keys.push(key);
                assert(key_views(keys@) =~= position_keys(entry_views(rows@)));
            }
            i = i + 1;
        }
        assert(all.take(i as int) =~= all);
        let ghost own = entry_views(rows@);
        proof {
            lemma_filter_places(all, keep);
            assert(own == entries_of(self.tables(), playlist_id));
        }
        let order: Vec<usize> = order_by(&keys, false);
        let mut sorted: Vec<EntryRecord> = Vec::new();
        let mut k: usize = 0;
        while k < order.len()
            invariant
                k <= order.len(),
                own == entry_views(rows@),
                forall|m: int| 0 <= m < order@.len() ==> #[trigger] order@[m] < rows@.len(),
                sorted@.len() == k,
                forall|m: int| 0 <= m < k ==> (#[trigger] sorted@[m])@ == own[order@[m] as int],
            decreases order.len() - k,
        {
            assert(order@[k as int] < rows@.len());
            sorted.push(rows[order[k]].clone());
            k = k + 1;
        }
        assert(entry_views(sorted@) =~= arranged(own, order@));
        sorted
    }

    /// The songs of a playlist, by position.
    pub fn get_songs(&self, playlist_id: i64) -> (r: Vec<String>)
        requires
            self.wf(),
        ensures
            text_views(r@) == songs_of(self.tables(), playlist_id),
            r@.len() == entries_of(self.tables(), playlist_id).len(),
            r@.len() <= self.tables().entries.len(),
    {
        let rows: Vec<EntryRecord> = self.rows_by_position(playlist_id);
        let mut songs: Vec<String> = Vec::new();
        let mut i: usize = 0;
        while i < rows.len()
            invariant
                i <= rows.len(),
                songs@.len() == i,
                forall|k: int| 0 <= k < i ==> (#[trigger] songs@[k])@ == rows@[k].path@,
            decreases rows.len() - i,
        {
            songs.push(rows[i].path.clone());
            i = i + 1;
        }
        assert(text_views(songs@) =~= paths_of(entry_views(rows@)));
        songs
    }

    /// The numbers of the song rows of a playlist, by position.
    fn rowids_by_position(&self, playlist_id: i64) -> (r: Vec<i64>)
        requires
            self.wf(),
        ensures
            r@ == rowids_of(song_rows(self.tables(), playlist_id)),
            r@.len() <= self.tables().entries.len(),
    {
        let rows: Vec<EntryRecord> = self.rows_by_position(playlist_id);
        let mut rowids: Vec<i64> = Vec::new();
        let mut i: usize = 0;
        while i < rows.len()
            invariant
                i <= rows.len(),
                rowids@.len() == i,
                forall|k: int| 0 <= k < i ==> #[trigger] rowids@[k] == rows@[k].rowid,
            decreases rows.len() - i,
        {
            rowids.push(rows[i].rowid);
            i = i + 1;
        }
        assert(rowids@ =~= rowids_of(entry_views(rows@)));
        rowids
    }

    /// Adds a song at the end of a playlist.
    pub fn add_song(&mut self, playlist_id: i64, path: &str) -> (r: Result<(), DbError>)
        requires
            old(self).wf(),
        ensures
            final(self).wf(),
            ({
                let t = old(self).tables();
                let rowid = next_rowid(t.entries);
                let position = top_position(entries_of(t, playlist_id)) + 1;
                if !t.has_playlist(playlist_id) {
                    &&& r == Err::<(), DbError>(DbError::ForeignKey)
                    &&& final(self).after(old(self), None)
                } else if entries_are_full(t.entries) || position > i64::MAX {
                    &&& r == Err::<(), DbError>(DbError::Full)
                    &&& final(self).after(old(self), None)
                } else {
                    let entry = EntryData {
                        rowid: rowid as i64,
                        playlist_id,
                        path: path@,
                        position: position as i64,
                    };
                    &&& r is Ok
                    &&& final(self).after(old(self), Some(ChangeData::InsertEntry { entry }))
                }
            }),
    {
        let ghost all = self.tables().entries;
        if !self.rows.has_playlist(playlist_id) {
            return Err(DbError::ForeignKey);
        }
        let n: usize = self.rows.entries.len();
        let last: i64 = if n == 0 {
            0
        } else {
            assert(all[n - 1] == self.rows.entries@[n - 1]@);
            self.rows.entries[n - 1].rowid
        };
        let top: i64 = self.last_position(playlist_id);
        if last == i64::MAX || top == i64::MAX || n as u64 >= i64::MAX as u64 {
            return Err(DbError::Full);
        }
        let entry: EntryRecord = EntryRecord {
            rowid: last + 1,
            playlist_id,
            path: path.to_owned(),
            position: top + 1,
        };
        proof {
            assert forall|i: int| 0 <= i < all.len() implies (#[trigger] all[i]).rowid
                < entry.rowid by {
                if i < all.len() - 1 {
                    assert(all[i].rowid < all[all.len() - 1].rowid);
                }
            }
        }
        self.commit(Change::InsertEntry { entry });
        Ok(())
    }

    /// The largest position in a playlist; -1 where it has no songs.
    fn last_position(&self, playlist_id: i64) -> (top: i64)
        requires
            self.wf(),
        ensures
            top == top_position(entries_of(self.tables(), playlist_id)),
    {
        let ghost all = self.tables().entries;
        let ghost keep = |e: EntryData| e.playlist_id == playlist_id;
        let mut top: i64 = -1;
        let mut found: bool = false;
        let mut i: usize = 0;
        assert(all.take(0).filter(keep) == Seq::<EntryData>::empty()) by {
            reveal(Seq::filter);
        }
        while i < self.rows.entries.len()
            invariant
                i <= self.rows.entries.len(),
                all == entry_views(self.rows.entries@),
                keep == |e: EntryData| e.playlist_id == playlist_id,
                top == top_position(all.take(i as int).filter(keep)),
                found == (all.take(i as int).filter(keep).len() > 0),
            decreases self.rows.entries.len() - i,
        {
            let ghost rows = all.take(i as int).filter(keep);
            proof {
                lemma_filter_step(all, keep, i as int);
            }
            let row: &EntryRecord = &self.rows.entries[i];
            assert(all[i as int] == row@);
            if row.playlist_id == playlist_id {
                assert(rows.push(row@).drop_last() =~= rows);
                if !found || row.position > top {
                    top = row.position;
                }
                found = true;
            }
            i = i + 1;
        }
        assert(all.take(i as int) =~= all);
        top
    }

    /// Removes the song at place `index` from a playlist; the other songs keep their rows, and move
    /// up to the positions 0, 1 and so on. Does nothing where there is no such place.
    pub fn remove_song(&mut self, playlist_id: i64, index: usize)
        requires
            old(self).wf(),
        ensures
            final(self).wf(),
            ({
                let t = old(self).tables();
                let songs = songs_of(t, playlist_id);
                if index < songs.len() {
                    &&& final(self).after_all(old(self), removing(t, playlist_id, index as int))
                    &&& songs_of(final(self).tables(), playlist_id) == songs.remove(index as int)
                    &&& same_but_positions(
                        t.entries.filter(
                            |e: EntryData|
                                e.rowid != song_rows(t, playlist_id)[index as int].rowid,
                        ),
                        final(self).tables().entries,
                    )
                } else {
                    final(self).after(old(self), None)
                }
            }),
    {
        let mut rowids: Vec<i64> = self.rowids_by_position(playlist_id);
        if index < rowids.len() {
            let ghost t = self.tables();
            let ghost rows = song_rows(t, playlist_id);
            let ghost start = *self;
            proof {
                assert(self.rows.entries.len() == t.entries.len());
                law_removed_song_reads_back(t, playlist_id, index as int, playlist_id);
                lemma_after_none(&start);
            }
            let gone: i64 = rowids.remove(index);
            assert(rowids@ =~= rowids_of(rows.remove(index as int)));
            self.commit(Change::DeleteEntry { rowid: gone });
            let ghost middle = *self;
            self.commit(Change::SetPositions { rowids });
            proof {
                let c = removing(t, playlist_id, index as int);
                lemma_after_all_push(&start, &start, &middle, Seq::empty(), c[0]);
                lemma_after_all_push(&start, &middle, self, Seq::empty().push(c[0]), c[1]);
                assert(Seq::empty().push(c[0]).push(c[1]) =~= c);
            }
        }
    }

    /// Moves a song from one place of a playlist to another: its songs get the positions 0, 1 and
    /// so on in their new order, and nothing else changes. Does nothing where there are no such
    /// places.
    pub fn move_song(&mut self, playlist_id: i64, from: usize, to: usize)
        requires
            old(self).wf(),
        ensures
            final(self).wf(),
            ({
                let t = old(self).tables();
                let songs = songs_of(t, playlist_id);
                if from < songs.len() && to < songs.len() && from != to {
                    &&& final(self).after(
                        old(self),
                        Some(moving(t, playlist_id, from as int, to as int)),
                    )
                    &&& songs_of(final(self).tables(), playlist_id) == songs.remove(
                        from as int,
                    ).insert(to as int, songs[from as int])
                    &&& same_but_positions(t.entries, final(self).tables().entries)
                    &&& forall|sort: i32| #[trigger]
                        all_paths(final(self).tables(), sort) == all_paths(t, sort)
                } else {
                    final(self).after(old(self), None)
                }
            }),
    {
        let mut rowids: Vec<i64> = self.rowids_by_position(playlist_id);
        if from < rowids.len() && to < rowids.len() && from != to {
            let ghost t = self.tables();
            let ghost rows = song_rows(t, playlist_id);
            proof {
                assert(self.rows.entries.len() == t.entries.len());
                law_moved_song_reads_back(t, playlist_id, from as int, to as int, playlist_id);
            }
            let rowid: i64 = rowids.remove(from);
            rowids.insert(to, rowid);
            assert(rowids@ =~= rowids_of(
                rows.remove(from as int).insert(to as int, rows[from as int]),
            ));
            self.commit(Change::SetPositions { rowids });
        }
    }
}

} // verus!
