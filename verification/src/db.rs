//! The store: playlists, playlist tracks, playback history and settings.
//!
//! A [`Db`] holds the tables as they were read from the database file, and the changes that were
//! made to them since, to be carried out on the file.

use vstd::prelude::*;

use crate::order::lemma_filter_step;
use crate::tables::change_views;
use crate::tables::entry_views;
use crate::tables::law_apply_keeps_references;
use crate::tables::law_apply_keeps_wf;
use crate::tables::law_numbers_are_new;
use crate::tables::lemma_filter_all;
use crate::tables::lemma_filter_but_one;
use crate::tables::lemma_ids_differ;
use crate::tables::lemma_map_of;
use crate::tables::lemma_map_push;
use crate::tables::lemma_map_remove;
use crate::tables::lemma_map_update;
use crate::tables::map_of;
use crate::tables::place_in;
use crate::tables::play_views;
use crate::tables::playlist_views;
use crate::tables::repositioned;
use crate::tables::unique_keys;
use crate::tables::AccessRecord;
use crate::tables::Change;
use crate::tables::ChangeData;
use crate::tables::EntryData;
use crate::tables::EntryRecord;
use crate::tables::PlayRecord;
use crate::tables::PlaylistData;
use crate::tables::PlaylistRecord;
use crate::tables::SettingRecord;
use crate::tables::Tables;

verus! {

/// Why the store refuses an operation.
pub enum DbError {
    /// There is no playlist with the given number.
    ForeignKey,
    /// The row numbers are used up.
    Full,
    /// The rows that were read are not in the order of their numbers, or a key stands twice.
    Malformed,
}

/// The rows of a database file, each table in the order of its row numbers.
pub struct Snapshot {
    pub playlists: Vec<PlaylistRecord>,
    /// The largest playlist number ever given.
    pub playlist_seq: i64,
    pub entries: Vec<EntryRecord>,
    pub history: Vec<PlayRecord>,
    /// The largest history number ever given.
    pub history_seq: i64,
    pub accessed: Vec<AccessRecord>,
    pub settings: Vec<SettingRecord>,
}

/// The store.
pub struct Db {
    /// The tables as they are now.
    pub(crate) rows: Snapshot,
    /// The changes since the database file was read or was last brought up to date.
    pub(crate) pending: Vec<Change>,
    /// The tables of the database file.
    pub(crate) base: Ghost<Tables>,
}

pub open spec fn access_pairs(rows: Seq<AccessRecord>) -> Seq<(i64, Seq<char>)> {
    rows.map_values(|r: AccessRecord| (r.playlist_id, r.last_played@))
}

pub open spec fn setting_pairs(rows: Seq<SettingRecord>) -> Seq<(Seq<char>, Seq<char>)> {
    rows.map_values(|r: SettingRecord| (r.key@, r.value@))
}

impl Snapshot {
    /// The rows as tables.
    pub open spec fn tables(&self) -> Tables {
        Tables {
            playlists: playlist_views(self.playlists@),
            playlist_seq: self.playlist_seq as int,
            entries: entry_views(self.entries@),
            history: play_views(self.history@),
            history_seq: self.history_seq as int,
            accessed: map_of(access_pairs(self.accessed@)),
            settings: map_of(setting_pairs(self.settings@)),
        }
    }

    /// The row numbers ascend, and no playlist has two last accesses, no setting two values.
    pub open spec fn wf(&self) -> bool {
        &&& self.tables().wf()
        &&& unique_keys(access_pairs(self.accessed@))
        &&& unique_keys(setting_pairs(self.settings@))
    }

    /// The rows as tables, the largest numbers ever given taken as at least those of the rows.
    pub open spec fn opened(&self) -> Tables {
        Tables {
            playlist_seq: if self.playlists@.len() == 0 {
                larger(self.playlist_seq as int, 0)
            } else {
                larger(self.playlist_seq as int, self.playlists@.last().id as int)
            },
            history_seq: if self.history@.len() == 0 {
                larger(self.history_seq as int, 0)
            } else {
                larger(self.history_seq as int, self.history@.last().id as int)
            },
            ..self.tables()
        }
    }

    /// The rows are those of a database file: their numbers ascend, and no key stands twice.
    pub open spec fn readable(&self) -> bool {
        &&& self.opened().wf()
        &&& unique_keys(access_pairs(self.accessed@))
        &&& unique_keys(setting_pairs(self.settings@))
    }
}

/// The larger of two numbers.
pub open spec fn larger(a: int, b: int) -> int {
    if a < b {
        b
    } else {
        a
    }
}

impl Db {
    /// The tables as they are now.
    pub open(crate) spec fn tables(&self) -> Tables {
        self.rows.tables()
    }

    /// The changes that the database file has not seen.
    pub closed spec fn changes(&self) -> Seq<ChangeData> {
        change_views(self.pending@)
    }

    /// The tables of the database file.
    pub closed spec fn file(&self) -> Tables {
        self.base@
    }

    /// The rows are well formed, and the pending changes lead from the tables of the database file
    /// to the tables as they are now.
    pub open(crate) spec fn wf(&self) -> bool {
        &&& self.rows.wf()
        &&& self.file().replay(self.changes()) == self.tables()
    }

    /// The store went through one change that its tables accept, or through none.
    pub open spec fn after(&self, before: &Db, change: Option<ChangeData>) -> bool {
        &&& self.file() == before.file()
        &&& match change {
            Some(c) => {
                &&& before.tables().accepts(c)
                &&& self.tables() == before.tables().apply(c)
                &&& self.changes() == before.changes().push(c)
            },
            None => {
                &&& self.tables() == before.tables()
                &&& self.changes() == before.changes()
            },
        }
    }

    /// The store went through changes that its tables accept, one after the other.
    pub open spec fn after_all(&self, before: &Db, changes: Seq<ChangeData>) -> bool {
        &&& self.file() == before.file()
        &&& before.tables().accepts_all(changes)
        &&& self.tables() == before.tables().replay(changes)
        &&& self.changes() == before.changes() + changes
    }
}

/// Going through one change more.
pub proof fn lemma_after_all_push(
    first: &Db,
    middle: &Db,
    last: &Db,
    changes: Seq<ChangeData>,
    change: ChangeData,
)
    requires
        middle.after_all(first, changes),
        last.after(middle, Some(change)),
    ensures
        last.after_all(first, changes.push(change)),
{
    assert(changes.push(change).drop_last() =~= changes);
    assert(last.changes() =~= first.changes() + changes.push(change));
}

/// Going through no change at all.
pub proof fn lemma_after_none(db: &Db)
    ensures
        db.after_all(db, Seq::empty()),
{
    assert(db.changes() =~= db.changes() + Seq::<ChangeData>::empty());
}

/// Whatever the store goes through, every song and every last access belongs to a playlist, where
/// it did so before, and the largest numbers ever given never fall.
pub proof fn law_store_stays_sound(before: &Db, after: &Db, change: Option<ChangeData>)
    requires
        before.wf(),
        after.after(before, change),
    ensures
        after.tables().wf(),
        before.tables().references_hold() ==> after.tables().references_hold(),
        before.tables().playlist_seq <= after.tables().playlist_seq,
        before.tables().history_seq <= after.tables().history_seq,
{
    if let Some(c) = change {
        law_apply_keeps_wf(before.tables(), c);
        law_numbers_are_new(before.tables(), c);
        if before.tables().references_hold() {
            law_apply_keeps_references(before.tables(), c);
        }
    }
}

/// A store that went through a change holds the tables that the change leads to, and has noted the
/// change behind the earlier ones; one that went through none holds what it held. The changes that
/// it has noted always lead from the tables of the file to the tables that it holds.
pub proof fn law_changes_are_made_and_noted(
    before: &Db,
    after: &Db,
    change: ChangeData,
    changes: Seq<ChangeData>,
)
    requires
        before.wf(),
        after.wf(),
    ensures
        after.after(before, Some(change)) ==> {
            &&& after.tables() == before.tables().apply(change)
            &&& after.changes() == before.changes().push(change)
            &&& after.file() == before.file()
        },
        after.after_all(before, changes) ==> {
            &&& after.tables() == before.tables().replay(changes)
            &&& after.changes() == before.changes() + changes
            &&& after.file() == before.file()
        },
        after.after(before, None) ==> {
            &&& after.tables() == before.tables()
            &&& after.changes() == before.changes()
            &&& after.file() == before.file()
        },
        after.file().replay(after.changes()) == after.tables(),
{
}

/// The rows of a file are taken as they are exactly where the numbers of each table ascend, no
/// playlist has two last accesses and no setting two values, and the songs and plays can be
/// counted.
pub proof fn law_readable_rows(rows: &Snapshot)
    ensures
        rows.readable() <==> {
            &&& forall|i: int, j: int|
                0 <= i < j < rows.playlists@.len() ==> (#[trigger] rows.playlists@[i]).id < (
                #[trigger] rows.playlists@[j]).id
            &&& forall|i: int, j: int|
                0 <= i < j < rows.entries@.len() ==> (#[trigger] rows.entries@[i]).rowid < (
                #[trigger] rows.entries@[j]).rowid
            &&& forall|i: int, j: int|
                0 <= i < j < rows.history@.len() ==> (#[trigger] rows.history@[i]).id < (
                #[trigger] rows.history@[j]).id
            &&& forall|i: int, j: int|
                0 <= i < j < rows.accessed@.len() ==> (#[trigger] rows.accessed@[i]).playlist_id
                    != (#[trigger] rows.accessed@[j]).playlist_id
            &&& forall|i: int, j: int|
                0 <= i < j < rows.settings@.len() ==> (#[trigger] rows.settings@[i]).key@ != (
                #[trigger] rows.settings@[j]).key@
            &&& rows.entries@.len() <= i64::MAX
            &&& rows.history@.len() <= i64::MAX
        },
{
    let t = rows.opened();
    assert forall|i: int| 0 <= i < rows.playlists@.len() implies #[trigger] t.playlists[i]
        == rows.playlists@[i]@ by {}
    assert forall|i: int| 0 <= i < rows.entries@.len() implies #[trigger] t.entries[i]
        == rows.entries@[i]@ by {}
    assert forall|i: int| 0 <= i < rows.history@.len() implies #[trigger] t.history[i]
        == rows.history@[i]@ by {}
    if rows.readable() {
        assert forall|i: int, j: int| 0 <= i < j < rows.playlists@.len() implies (
        #[trigger] rows.playlists@[i]).id < (#[trigger] rows.playlists@[j]).id by {
            assert(t.playlists[i].id < t.playlists[j].id);
        }
        assert forall|i: int, j: int| 0 <= i < j < rows.entries@.len() implies (
        #[trigger] rows.entries@[i]).rowid < (#[trigger] rows.entries@[j]).rowid by {
            assert(t.entries[i].rowid < t.entries[j].rowid);
        }
        assert forall|i: int, j: int| 0 <= i < j < rows.history@.len() implies (
        #[trigger] rows.history@[i]).id < (#[trigger] rows.history@[j]).id by {
            assert(t.history[i].id < t.history[j].id);
        }
        assert forall|i: int, j: int| 0 <= i < j < rows.accessed@.len() implies (
        #[trigger] rows.accessed@[i]).playlist_id != (
        #[trigger] rows.accessed@[j]).playlist_id by {
            assert(access_pairs(rows.accessed@)[i].0 != access_pairs(rows.accessed@)[j].0);
        }
        assert forall|i: int, j: int| 0 <= i < j < rows.settings@.len() implies (
        #[trigger] rows.settings@[i]).key@ != (#[trigger] rows.settings@[j]).key@ by {
            assert(setting_pairs(rows.settings@)[i].0 != setting_pairs(rows.settings@)[j].0);
        }
    }
}

/// An opened store holds the rows of the file one by one: every field of every row, every last
/// access and every setting. The largest numbers ever given are those of the file, but never below
/// the last number in use, nor below zero where none is.
pub proof fn law_opened_store_holds_the_rows(rows: &Snapshot, i: int)
    requires
        rows.readable(),
    ensures
        ({
            let t = rows.opened();
            &&& t.playlists.len() == rows.playlists@.len()
            &&& t.entries.len() == rows.entries@.len()
            &&& t.history.len() == rows.history@.len()
            &&& 0 <= i < rows.playlists@.len() ==> {
                &&& t.playlists[i].id == rows.playlists@[i].id
                &&& t.playlists[i].name == rows.playlists@[i].name@
                &&& t.playlists[i].cover is None <==> rows.playlists@[i].cover is None
                &&& rows.playlists@[i].cover matches Some(c) ==> t.playlists[i].cover == Some(c@)
            }
            &&& 0 <= i < rows.entries@.len() ==> {
                &&& t.entries[i].rowid == rows.entries@[i].rowid
                &&& t.entries[i].playlist_id == rows.entries@[i].playlist_id
                &&& t.entries[i].path == rows.entries@[i].path@
                &&& t.entries[i].position == rows.entries@[i].position
            }
            &&& 0 <= i < rows.history@.len() ==> {
                &&& t.history[i].id == rows.history@[i].id
                &&& t.history[i].title == rows.history@[i].title@
                &&& t.history[i].artist == rows.history@[i].artist@
                &&& t.history[i].album == rows.history@[i].album@
                &&& t.history[i].date == rows.history@[i].date@
                &&& t.history[i].path is None <==> rows.history@[i].path is None
                &&& rows.history@[i].path matches Some(p) ==> t.history[i].path == Some(p@)
                &&& t.history[i].day is None <==> rows.history@[i].day is None
                &&& rows.history@[i].day matches Some(d) ==> t.history[i].day == Some(d@)
            }
            &&& 0 <= i < rows.accessed@.len() ==> {
                &&& t.accessed.contains_key(rows.accessed@[i].playlist_id)
                &&& t.accessed[rows.accessed@[i].playlist_id] == rows.accessed@[i].last_played@
            }
            &&& 0 <= i < rows.settings@.len() ==> {
                &&& t.settings.contains_key(rows.settings@[i].key@)
                &&& t.settings[rows.settings@[i].key@] == rows.settings@[i].value@
            }
            &&& t.playlist_seq >= rows.playlist_seq
            &&& t.history_seq >= rows.history_seq
            &&& rows.playlists@.len() > 0 ==> {
                &&& t.playlist_seq >= rows.playlists@.last().id
                &&& t.playlist_seq == rows.playlist_seq || t.playlist_seq
                    == rows.playlists@.last().id
            }
            &&& rows.playlists@.len() == 0 ==> {
                &&& t.playlist_seq >= 0
                &&& t.playlist_seq == rows.playlist_seq || t.playlist_seq == 0
            }
            &&& rows.history@.len() > 0 ==> {
                &&& t.history_seq >= rows.history@.last().id
                &&& t.history_seq == rows.history_seq || t.history_seq == rows.history@.last().id
            }
            &&& rows.history@.len() == 0 ==> {
                &&& t.history_seq >= 0
                &&& t.history_seq == rows.history_seq || t.history_seq == 0
            }
        }),
{
    lemma_map_of(access_pairs(rows.accessed@));
    lemma_map_of(setting_pairs(rows.settings@));
    if 0 <= i < rows.accessed@.len() {
        assert(access_pairs(rows.accessed@)[i].0 == rows.accessed@[i].playlist_id);
    }
    if 0 <= i < rows.settings@.len() {
        assert(setting_pairs(rows.settings@)[i].0 == rows.settings@[i].key@);
    }
}

impl Clone for PlaylistRecord {
    fn clone(&self) -> (r: Self)
        ensures
            r@ == self@,
    {
        PlaylistRecord {
            id: self.id,
            name: self.name.clone(),
            cover: match &self.cover {
                Some(c) => Some(c.clone()),
                None => None,
            },
        }
    }
}

impl Clone for EntryRecord {
    fn clone(&self) -> (r: Self)
        ensures
            r@ == self@,
    {
        EntryRecord {
            rowid: self.rowid,
            playlist_id: self.playlist_id,
            path: self.path.clone(),
            position: self.position,
        }
    }
}

impl Clone for PlayRecord {
    fn clone(&self) -> (r: Self)
        ensures
            r@ == self@,
    {
        PlayRecord {
            id: self.id,
            title: self.title.clone(),
            artist: self.artist.clone(),
            album: self.album.clone(),
            path: match &self.path {
                Some(p) => Some(p.clone()),
                None => None,
            },
            date: self.date.clone(),
            day: match &self.day {
                Some(d) => Some(d.clone()),
                None => None,
            },
        }
    }
}

fn playlists_ascend(rows: &Vec<PlaylistRecord>) -> (b: bool)
    ensures
        b == (forall|i: int, j: int|
            0 <= i < j < rows@.len() ==> (#[trigger] rows@[i]).id < (#[trigger] rows@[j]).id),
{
    let mut i: usize = 1;
    while i < rows.len()
        invariant
            rows@.len() == 0 || i <= rows.len(),
            1 <= i,
            forall|k: int, j: int|
                0 <= k < j < i && j < rows@.len() ==> (#[trigger] rows@[k]).id < (
                #[trigger] rows@[j]).id,
        decreases rows.len() - i,
    {
        if rows[i].id <= rows[i - 1].id {
            return false;
        }
        i = i + 1;
    }
    true
}

fn entries_ascend(rows: &Vec<EntryRecord>) -> (b: bool)
    ensures
        b == (forall|i: int, j: int|
            0 <= i < j < rows@.len() ==> (#[trigger] rows@[i]).rowid < (#[trigger] rows@[j]).rowid),
{
    let mut i: usize = 1;
    while i < rows.len()
        invariant
            rows@.len() == 0 || i <= rows.len(),
            1 <= i,
            forall|k: int, j: int|
                0 <= k < j < i && j < rows@.len() ==> (#[trigger] rows@[k]).rowid < (
                #[trigger] rows@[j]).rowid,
        decreases rows.len() - i,
    {
        if rows[i].rowid <= rows[i - 1].rowid {
            return false;
        }
        i = i + 1;
    }
    true
}

fn history_ascends(rows: &Vec<PlayRecord>) -> (b: bool)
    ensures
        b == (forall|i: int, j: int|
            0 <= i < j < rows@.len() ==> (#[trigger] rows@[i]).id < (#[trigger] rows@[j]).id),
{
    let mut i: usize = 1;
    while i < rows.len()
        invariant
            rows@.len() == 0 || i <= rows.len(),
            1 <= i,
            forall|k: int, j: int|
                0 <= k < j < i && j < rows@.len() ==> (#[trigger] rows@[k]).id < (
                #[trigger] rows@[j]).id,
        decreases rows.len() - i,
    {
        if rows[i].id <= rows[i - 1].id {
            return false;
        }
        i = i + 1;
    }
    true
}

/// The place of the last access of a playlist.
pub(crate) fn find_access(rows: &Vec<AccessRecord>, playlist_id: i64) -> (r: Option<usize>)
    ensures
        match r {
            Some(i) => i < rows@.len() && rows@[i as int].playlist_id == playlist_id,
            None => forall|k: int|
                0 <= k < rows@.len() ==> (#[trigger] rows@[k]).playlist_id != playlist_id,
        },
{
    let mut i: usize = 0;
    while i < rows.len()
        invariant
            i <= rows.len(),
            forall|k: int| 0 <= k < i ==> (#[trigger] rows@[k]).playlist_id != playlist_id,
        decreases rows.len() - i,
    {
        if rows[i].playlist_id == playlist_id {
            return Some(i);
        }
        i = i + 1;
    }
    None
}

/// The place of a setting.
pub(crate) fn find_setting(rows: &Vec<SettingRecord>, key: &str) -> (r: Option<usize>)
    ensures
        match r {
            Some(i) => i < rows@.len() && rows@[i as int].key@ == key@,
            None => forall|k: int| 0 <= k < rows@.len() ==> (#[trigger] rows@[k]).key@ != key@,
        },
{
    let wanted: String = key.to_owned();
    let mut i: usize = 0;
    while i < rows.len()
        invariant
            i <= rows.len(),
            wanted@ == key@,
            forall|k: int| 0 <= k < i ==> (#[trigger] rows@[k]).key@ != key@,
        decreases rows.len() - i,
    {
        if rows[i].key == wanted {
            return Some(i);
        }
        i = i + 1;
    }
    None
}

fn accesses_unique(rows: &Vec<AccessRecord>) -> (b: bool)
    ensures
        b == unique_keys(access_pairs(rows@)),
{
    let mut i: usize = 0;
    while i < rows.len()
        invariant
            i <= rows.len(),
            forall|a: int, c: int|
                0 <= a < c < i ==> (#[trigger] rows@[a]).playlist_id != (
                #[trigger] rows@[c]).playlist_id,
        decreases rows.len() - i,
    {
        let mut j: usize = 0;
        while j < i
            invariant
                j <= i < rows.len(),
                forall|a: int|
                    0 <= a < j ==> (#[trigger] rows@[a]).playlist_id != rows@[i as int].playlist_id,
            decreases i - j,
        {
            if rows[j].playlist_id == rows[i].playlist_id {
                assert(access_pairs(rows@)[j as int].0 == access_pairs(rows@)[i as int].0);
                return false;
            }
            j = j + 1;
        }
        i = i + 1;
    }
    assert forall|a: int, c: int| 0 <= a < c < rows@.len() implies (#[trigger] access_pairs(
        rows@,
    )[a]).0 != (#[trigger] access_pairs(rows@)[c]).0 by {
        assert(rows@[a].playlist_id != rows@[c].playlist_id);
    }
    true
}

fn settings_unique(rows: &Vec<SettingRecord>) -> (b: bool)
    ensures
        b == unique_keys(setting_pairs(rows@)),
{
    let mut i: usize = 0;
    while i < rows.len()
        invariant
            i <= rows.len(),
            forall|a: int, c: int|
                0 <= a < c < i ==> (#[trigger] rows@[a]).key@ != (#[trigger] rows@[c]).key@,
        decreases rows.len() - i,
    {
        let mut j: usize = 0;
        while j < i
            invariant
                j <= i < rows.len(),
                forall|a: int| 0 <= a < j ==> (#[trigger] rows@[a]).key@ != rows@[i as int].key@,
            decreases i - j,
        {
            if rows[j].key == rows[i].key {
                assert(setting_pairs(rows@)[j as int].0 == setting_pairs(rows@)[i as int].0);
                return false;
            }
            j = j + 1;
        }
        i = i + 1;
    }
    assert forall|a: int, c: int| 0 <= a < c < rows@.len() implies (#[trigger] setting_pairs(
        rows@,
    )[a]).0 != (#[trigger] setting_pairs(rows@)[c]).0 by {
        assert(rows@[a].key@ != rows@[c].key@);
    }
    true
}

impl Snapshot {
    /// Tells whether the rows are those of a database file.
    fn check(&self) -> (b: bool)
        ensures
            b == self.readable(),
    {
        let most: u64 = i64::MAX as u64;
        let b: bool = self.entries.len() as u64 <= most && self.history.len() as u64 <= most
            && playlists_ascend(&self.playlists) && entries_ascend(&self.entries)
            && history_ascends(&self.history) && accesses_unique(&self.accessed)
            && settings_unique(&self.settings);
        proof {
            let t = self.opened();
            assert forall|i: int| 0 <= i < self.playlists@.len() implies #[trigger] t.playlists[i]
                == self.playlists@[i]@ by {}
            assert forall|i: int| 0 <= i < self.entries@.len() implies #[trigger] t.entries[i]
                == self.entries@[i]@ by {}
            assert forall|i: int| 0 <= i < self.history@.len() implies #[trigger] t.history[i]
                == self.history@[i]@ by {}
            if t.wf() {
                assert forall|i: int, j: int| 0 <= i < j < self.playlists@.len() implies (
                #[trigger] self.playlists@[i]).id < (#[trigger] self.playlists@[j]).id by {
                    assert(t.playlists[i].id < t.playlists[j].id);
                }
                assert forall|i: int, j: int| 0 <= i < j < self.entries@.len() implies (
                #[trigger] self.entries@[i]).rowid < (#[trigger] self.entries@[j]).rowid by {
                    assert(t.entries[i].rowid < t.entries[j].rowid);
                }
                assert forall|i: int, j: int| 0 <= i < j < self.history@.len() implies (
                #[trigger] self.history@[i]).id < (#[trigger] self.history@[j]).id by {
                    assert(t.history[i].id < t.history[j].id);
                }
            }
        }
        b
    }
}

fn larger_of(a: i64, b: i64) -> (r: i64)
    ensures
        r == larger(a as int, b as int),
{
    if a < b {
        b
    } else {
        a
    }
}

impl Db {
    /// Opens the store over the rows of a database file, each table in the order of its numbers.
    /// The largest numbers ever given are taken as at least those of the rows.
    pub fn open(rows: Snapshot) -> (r: Result<Db, DbError>)
        ensures
            match r {
                Ok(db) => {
                    &&& rows.readable()
                    &&& db.wf()
                    &&& db.tables() == rows.opened()
                    &&& db.changes() == Seq::<ChangeData>::empty()
                },
                Err(e) => !rows.readable() && e is Malformed,
            },
    {
        if !rows.check() {
            return Err(DbError::Malformed);
        }
        let mut rows: Snapshot = rows;
        let ghost tables = rows.opened();
        let n: usize = rows.playlists.len();
        let last: i64 = if n == 0 {
            0
        } else {
            rows.playlists[n - 1].id
        };
        let m: usize = rows.history.len();
        let latest: i64 = if m == 0 {
            0
        } else {
            rows.history[m - 1].id
        };
        rows.playlist_seq = larger_of(rows.playlist_seq, last);
        rows.history_seq = larger_of(rows.history_seq, latest);
        assert(rows.tables() =~= tables);
        let db: Db = Db { rows, pending: Vec::new(), base: Ghost(tables) };
        assert(db.changes() =~= Seq::<ChangeData>::empty());
        Ok(db)
    }

    /// The rows of the tables as they are now.
    pub fn rows(&self) -> (r: &Snapshot)
        ensures
            r.tables() == self.tables(),
            self.wf() ==> r.wf(),
    {
        &self.rows
    }

    /// Hands out the changes that the database file has not seen, in the order in which they are
    /// to be carried out.
    pub fn take_changes(&mut self) -> (r: Vec<Change>)
        requires
            old(self).wf(),
        ensures
            final(self).wf(),
            change_views(r@) == old(self).changes(),
            old(self).file().replay(change_views(r@)) == old(self).tables(),
            final(self).tables() == old(self).tables(),
            final(self).changes() == Seq::<ChangeData>::empty(),
            final(self).file() == old(self).tables(),
    {
        let mut r: Vec<Change> = Vec::new();
        r.append(&mut self.pending);
        assert(r@ =~= old(self).pending@);
        self.base = Ghost(self.tables());
        assert(self.changes() =~= Seq::<ChangeData>::empty());
        r
    }
}

/// The tables went through a change; the other rows of the snapshot are still in order.
spec fn carried_out(before: &Snapshot, after: &Snapshot, change: ChangeData) -> bool {
    &&& after.tables() == before.tables().apply(change)
    &&& unique_keys(access_pairs(before.accessed@)) ==> unique_keys(access_pairs(after.accessed@))
    &&& unique_keys(setting_pairs(before.settings@)) ==> unique_keys(
        setting_pairs(after.settings@),
    )
}

fn find_playlist(rows: &Vec<PlaylistRecord>, id: i64) -> (r: Option<usize>)
    ensures
        match r {
            Some(i) => i < rows@.len() && rows@[i as int].id == id,
            None => forall|k: int| 0 <= k < rows@.len() ==> (#[trigger] rows@[k]).id != id,
        },
{
    let mut i: usize = 0;
    while i < rows.len()
        invariant
            i <= rows.len(),
            forall|k: int| 0 <= k < i ==> (#[trigger] rows@[k]).id != id,
        decreases rows.len() - i,
    {
        if rows[i].id == id {
            return Some(i);
        }
        i = i + 1;
    }
    None
}

fn find_entry(rows: &Vec<EntryRecord>, rowid: i64) -> (r: Option<usize>)
    ensures
        match r {
            Some(i) => i < rows@.len() && rows@[i as int].rowid == rowid,
            None => forall|k: int| 0 <= k < rows@.len() ==> (#[trigger] rows@[k]).rowid != rowid,
        },
{
    let mut i: usize = 0;
    while i < rows.len()
        invariant
            i <= rows.len(),
            forall|k: int| 0 <= k < i ==> (#[trigger] rows@[k]).rowid != rowid,
        decreases rows.len() - i,
    {
        if rows[i].rowid == rowid {
            return Some(i);
        }
        i = i + 1;
    }
    None
}

/// The place of a row number in a list.
fn find_place(rowids: &Vec<i64>, rowid: i64) -> (r: Option<usize>)
    ensures
        match r {
            Some(i) => i == place_in(rowids@, rowid) && i < rowids@.len(),
            None => place_in(rowids@, rowid) >= rowids@.len(),
        },
{
    let mut i: usize = 0;
    assert(rowids@.skip(0) =~= rowids@);
    while i < rowids.len()
        invariant
            i <= rowids.len(),
            place_in(rowids@, rowid) == i + place_in(rowids@.skip(i as int), rowid),
        decreases rowids.len() - i,
    {
        assert(rowids@.skip(i as int)[0] == rowids@[i as int]);
        if rowids[i] == rowid {
            return Some(i);
        }
        assert(rowids@.skip(i as int).drop_first() =~= rowids@.skip(i + 1));
        i = i + 1;
    }
    None
}

/// A number that no row has is that of no playlist.
proof fn lemma_id_is_new(rows: &Snapshot, id: i64)
    requires
        forall|k: int| 0 <= k < rows.playlists@.len() ==> (#[trigger] rows.playlists@[k]).id != id,
    ensures
        forall|k: int|
            0 <= k < rows.tables().playlists.len() ==> (#[trigger] rows.tables().playlists[k]).id
                != id,
{
    assert forall|k: int| 0 <= k < rows.tables().playlists.len() implies (
    #[trigger] rows.tables().playlists[k]).id != id by {
        assert(rows.playlists@[k].id != id);
    }
}

/// The songs of the other playlists.
fn others(rows: &Vec<EntryRecord>, playlist_id: i64) -> (r: Vec<EntryRecord>)
    ensures
        entry_views(r@) == entry_views(rows@).filter(|e: EntryData| e.playlist_id != playlist_id),
{
    let ghost keep = |e: EntryData| e.playlist_id != playlist_id;
    let ghost all = entry_views(rows@);
    let mut r: Vec<EntryRecord> = Vec::new();
    let mut i: usize = 0;
    assert(all.take(0).filter(keep) == Seq::<EntryData>::empty()) by {
        reveal(Seq::filter);
    }
    assert(entry_views(r@) =~= Seq::<EntryData>::empty());
    while i < rows.len()
        invariant
            i <= rows.len(),
            all == entry_views(rows@),
            keep == |e: EntryData| e.playlist_id != playlist_id,
            entry_views(r@) == all.take(i as int).filter(keep),
        decreases rows.len() - i,
    {
        proof {
            lemma_filter_step(all, keep, i as int);
        }
        assert(all[i as int] == rows@[i as int]@);
        if rows[i].playlist_id != playlist_id {
            let ghost before = r@;
            let row: EntryRecord = rows[i].clone();
            r.push(row);
            assert(entry_views(r@) =~= entry_views(before).push(row@));
        }
        i = i + 1;
    }
    assert(all.take(i as int) =~= all);
    r
}

impl Snapshot {
    pub(crate) fn has_playlist(&self, id: i64) -> (b: bool)
        ensures
            b == self.tables().has_playlist(id),
    {
        match find_playlist(&self.playlists, id) {
            Some(i) => {
                assert(self.tables().playlists[i as int].id == id);
                true
            },
            None => {
                proof {
                    lemma_id_is_new(self, id);
                }
                false
            },
        }
    }

    fn insert_playlist(&mut self, id: i64, name: &String)
        ensures
            carried_out(old(self), final(self), ChangeData::InsertPlaylist { id, name: name@ }),
    {
        let row: PlaylistRecord = PlaylistRecord { id, name: name.clone(), cover: None };
        self.playlists.push(row);
        self.playlist_seq = id;
        proof {
            let change = ChangeData::InsertPlaylist { id, name: name@ };
            assert(self.tables().playlists =~= old(self).tables().apply(change).playlists);
            assert(self.tables() =~= old(self).tables().apply(change));
        }
    }

    fn delete_playlist(&mut self, id: i64)
        requires
            old(self).wf(),
        ensures
            carried_out(old(self), final(self), ChangeData::DeletePlaylist { id }),
    {
        let ghost change = ChangeData::DeletePlaylist { id };
        let ghost before = self.tables();
        match find_playlist(&self.playlists, id) {
            Some(i) => {
                assert(before.playlists[i as int].id == id);
                self.playlists.remove(i);
                self.entries = others(&self.entries, id);
                proof {
                    let keep = |p: PlaylistData| p.id != id;
                    lemma_ids_differ(before, i as int);
                    lemma_filter_but_one(before.playlists, keep, i as int);
                    assert(self.tables().playlists =~= before.playlists.remove(i as int));
                }
                match find_access(&self.accessed, id) {
                    Some(k) => {
                        let ghost pairs = access_pairs(self.accessed@);
                        proof {
                            lemma_map_remove(pairs, k as int);
                        }
                        self.accessed.remove(k);
                        assert(access_pairs(self.accessed@) =~= pairs.remove(k as int));
                    },
                    None => {
                        proof {
                            let pairs = access_pairs(self.accessed@);
                            lemma_map_of(pairs);
                            if map_of(pairs).contains_key(id) {
                                let k = choose|k: int|
                                    0 <= k < pairs.len() && (#[trigger] pairs[k]).0 == id;
                                assert(self.accessed@[k].playlist_id == id);
                            }
                            assert(map_of(pairs).remove(id) =~= map_of(pairs));
                        }
                    },
                }
                assert(self.tables() =~= before.apply(change));
            },
            None => {
                proof {
                    lemma_id_is_new(self, id);
                }
            },
        }
    }

    fn rename_playlist(&mut self, id: i64, name: &String)
        requires
            old(self).wf(),
        ensures
            carried_out(old(self), final(self), ChangeData::RenamePlaylist { id, name: name@ }),
    {
        let ghost before = self.tables();
        match find_playlist(&self.playlists, id) {
            Some(i) => {
                let mut row: PlaylistRecord = self.playlists[i].clone();
                row.name = name.clone();
                self.playlists.set(i, row);
                proof {
                    lemma_ids_differ(before, i as int);
                }
            },
            None => {
                proof {
                    lemma_id_is_new(self, id);
                }
            },
        }
        proof {
            let after = before.apply(ChangeData::RenamePlaylist { id, name: name@ });
            assert(self.tables().playlists =~= after.playlists);
            assert(self.tables() =~= after);
        }
    }

    fn set_cover(&mut self, id: i64, cover: &String)
        requires
            old(self).wf(),
        ensures
            carried_out(old(self), final(self), ChangeData::SetCover { id, cover: cover@ }),
    {
        let ghost before = self.tables();
        match find_playlist(&self.playlists, id) {
            Some(i) => {
                let mut row: PlaylistRecord = self.playlists[i].clone();
                row.cover = Some(cover.clone());
                self.playlists.set(i, row);
                proof {
                    lemma_ids_differ(before, i as int);
                }
            },
            None => {
                proof {
                    lemma_id_is_new(self, id);
                }
            },
        }
        proof {
            let after = before.apply(ChangeData::SetCover { id, cover: cover@ });
            assert(self.tables().playlists =~= after.playlists);
            assert(self.tables() =~= after);
        }
    }

    fn insert_entry(&mut self, entry: &EntryRecord)
        ensures
            carried_out(old(self), final(self), ChangeData::InsertEntry { entry: entry@ }),
    {
        let row: EntryRecord = entry.clone();
        self.entries.push(row);
        proof {
            let change = ChangeData::InsertEntry { entry: entry@ };
            assert(self.tables().entries =~= old(self).tables().apply(change).entries);
            assert(self.tables() =~= old(self).tables().apply(change));
        }
    }

    fn delete_entry(&mut self, rowid: i64)
        requires
            old(self).wf(),
        ensures
            carried_out(old(self), final(self), ChangeData::DeleteEntry { rowid }),
    {
        let ghost before = self.tables();
        let ghost keep = |e: EntryData| e.rowid != rowid;
        match find_entry(&self.entries, rowid) {
            Some(i) => {
                proof {
                    assert(before.entries[i as int].rowid == rowid);
                    assert forall|k: int| 0 <= k < before.entries.len() && k != i implies keep(
                        #[trigger] before.entries[k],
                    ) by {
                        if k < i {
                            assert(before.entries[k].rowid < before.entries[i as int].rowid);
                        } else {
                            assert(before.entries[i as int].rowid < before.entries[k].rowid);
                        }
                    }
                    lemma_filter_but_one(before.entries, keep, i as int);
                }
                self.entries.remove(i);
                assert(self.tables().entries =~= before.entries.remove(i as int));
            },
            None => {
                proof {
                    assert forall|k: int| 0 <= k < before.entries.len() implies keep(
                        #[trigger] before.entries[k],
                    ) by {
                        assert(self.entries@[k].rowid != rowid);
                    }
                    lemma_filter_all(before.entries, keep);
                }
            },
        }
        assert(self.tables() =~= before.apply(ChangeData::DeleteEntry { rowid }));
    }

    fn set_positions(&mut self, rowids: &Vec<i64>)
        requires
            rowids@.len() <= i64::MAX,
        ensures
            carried_out(old(self), final(self), ChangeData::SetPositions { rowids: rowids@ }),
    {
        let ghost before = self.tables();
        let mut rows: Vec<EntryRecord> = Vec::new();
        let mut i: usize = 0;
        while i < self.entries.len()
            invariant
                i <= self.entries.len(),
                *self == *old(self),
                rowids@.len() <= i64::MAX,
                rows@.len() == i,
                forall|k: int|
                    0 <= k < i ==> (#[trigger] rows@[k])@ == repositioned(
                        self.entries@[k]@,
                        rowids@,
                    ),
            decreases self.entries.len() - i,
        {
            let mut row: EntryRecord = self.entries[i].clone();
            if let Some(place) = find_place(rowids, row.rowid) {
                row.position = place as i64;
            }
            rows.push(row);
            i = i + 1;
        }
        self.entries = rows;
        proof {
            let after = before.apply(ChangeData::SetPositions { rowids: rowids@ });
            assert(self.tables().entries =~= after.entries);
            assert(self.tables() =~= after);
        }
    }

    fn insert_play(&mut self, play: &PlayRecord)
        ensures
            carried_out(old(self), final(self), ChangeData::InsertPlay { play: play@ }),
    {
        let row: PlayRecord = play.clone();
        self.history_seq = row.id;
        self.history.push(row);
        proof {
            let change = ChangeData::InsertPlay { play: play@ };
            assert(self.tables().history =~= old(self).tables().apply(change).history);
            assert(self.tables() =~= old(self).tables().apply(change));
        }
    }

    fn set_accessed(&mut self, playlist_id: i64, last_played: &String)
        requires
            old(self).wf(),
        ensures
            carried_out(
                old(self),
                final(self),
                ChangeData::SetAccessed { playlist_id, last_played: last_played@ },
            ),
    {
        let ghost pairs = access_pairs(self.accessed@);
        let row: AccessRecord = AccessRecord { playlist_id, last_played: last_played.clone() };
        match find_access(&self.accessed, playlist_id) {
            Some(i) => {
                proof {
                    lemma_map_update(pairs, i as int, last_played@);
                }
                self.accessed.set(i, row);
                assert(access_pairs(self.accessed@) =~= pairs.update(
                    i as int,
                    (playlist_id, last_played@),
                ));
            },
            None => {
                proof {
                    assert forall|k: int| 0 <= k < pairs.len() implies (#[trigger] pairs[k]).0
                        != playlist_id by {
                        assert(self.accessed@[k].playlist_id != playlist_id);
                    }
                    lemma_map_push(pairs, playlist_id, last_played@);
                }
                self.accessed.push(row);
                assert(access_pairs(self.accessed@) =~= pairs.push((playlist_id, last_played@)));
            },
        }
        assert(self.tables() =~= old(self).tables().apply(
            ChangeData::SetAccessed { playlist_id, last_played: last_played@ },
        ));
    }

    fn set_setting(&mut self, key: &String, value: &String)
        requires
            old(self).wf(),
        ensures
            carried_out(
                old(self),
                final(self),
                ChangeData::SetSetting { key: key@, value: value@ },
            ),
    {
        let ghost pairs = setting_pairs(self.settings@);
        let row: SettingRecord = SettingRecord { key: key.clone(), value: value.clone() };
        match find_setting(&self.settings, key.as_str()) {
            Some(i) => {
                proof {
                    lemma_map_update(pairs, i as int, value@);
                }
                self.settings.set(i, row);
                assert(setting_pairs(self.settings@) =~= pairs.update(i as int, (key@, value@)));
            },
            None => {
                proof {
                    assert forall|k: int| 0 <= k < pairs.len() implies (#[trigger] pairs[k]).0
                        != key@ by {
                        assert(self.settings@[k].key@ != key@);
                    }
                    lemma_map_push(pairs, key@, value@);
                }
                self.settings.push(row);
                assert(setting_pairs(self.settings@) =~= pairs.push((key@, value@)));
            },
        }
        assert(self.tables() =~= old(self).tables().apply(
            ChangeData::SetSetting { key: key@, value: value@ },
        ));
    }
}

impl Db {
    /// Makes a change, and notes it for the database file.
    pub(crate) fn commit(&mut self, change: Change)
        requires
            old(self).wf(),
            old(self).tables().accepts(change@),
        ensures
            final(self).wf(),
            final(self).after(old(self), Some(change@)),
    {
        match &change {
            Change::InsertPlaylist { id, name } => self.rows.insert_playlist(*id, name),
            Change::DeletePlaylist { id } => self.rows.delete_playlist(*id),
            Change::RenamePlaylist { id, name } => self.rows.rename_playlist(*id, name),
            Change::SetCover { id, cover } => self.rows.set_cover(*id, cover),
            Change::InsertEntry { entry } => self.rows.insert_entry(entry),
            Change::DeleteEntry { rowid } => self.rows.delete_entry(*rowid),
            Change::SetPositions { rowids } => self.rows.set_positions(rowids),
            Change::InsertPlay { play } => self.rows.insert_play(play),
            Change::SetAccessed { playlist_id, last_played } => self.rows.set_accessed(
                *playlist_id,
                last_played,
            ),
            Change::SetSetting { key, value } => self.rows.set_setting(key, value),
        }
        proof {
            law_apply_keeps_wf(old(self).tables(), change@);
        }
        self.pending.push(change);
        proof {
            assert(self.changes() =~= old(self).changes().push(change@));
            assert(self.changes().drop_last() =~= old(self).changes());
        }
    }
}

} // verus!
