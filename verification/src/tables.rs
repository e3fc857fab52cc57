//! The tables of the store, as rows and as mathematical values, and the changes to them.

use vstd::prelude::*;

verus! {

/// A row of the playlist table.
pub struct PlaylistRecord {
    pub id: i64,
    pub name: String,
    pub cover: Option<String>,
}

/// A row of the table of playlist songs.
pub struct EntryRecord {
    pub rowid: i64,
    pub playlist_id: i64,
    pub path: String,
    pub position: i64,
}

/// A row of the playback history.
pub struct PlayRecord {
    pub id: i64,
    pub title: String,
    pub artist: String,
    pub album: String,
    pub path: Option<String>,
    /// `YYYY-MM-DD HH:MM:SS`, local time.
    pub date: String,
    /// The day that the database reads from `date`, `YYYY-MM-DD`; none where it reads none.
    pub day: Option<String>,
}

/// A time as the database tells it.
pub struct Moment {
    /// `YYYY-MM-DD HH:MM:SS`, local time.
    pub stamp: String,
    /// The day of the stamp, `YYYY-MM-DD`.
    pub day: String,
}

/// When a playlist was last played.
pub struct AccessRecord {
    pub playlist_id: i64,
    /// `YYYY-MM-DD HH:MM:SS`, local time.
    pub last_played: String,
}

/// A setting.
pub struct SettingRecord {
    pub key: String,
    pub value: String,
}

/// A change to the tables, to be carried out on the database file.
pub enum Change {
    InsertPlaylist { id: i64, name: String },
    /// The songs and the last access of the playlist go with it.
    DeletePlaylist { id: i64 },
    RenamePlaylist { id: i64, name: String },
    SetCover { id: i64, cover: String },
    InsertEntry { entry: EntryRecord },
    /// The song with this row number leaves its playlist.
    DeleteEntry { rowid: i64 },
    /// The songs with these row numbers get the positions 0, 1 and so on.
    SetPositions { rowids: Vec<i64> },
    InsertPlay { play: PlayRecord },
    SetAccessed { playlist_id: i64, last_played: String },
    SetSetting { key: String, value: String },
}

pub struct PlaylistData {
    pub id: i64,
    pub name: Seq<char>,
    pub cover: Option<Seq<char>>,
}

pub struct EntryData {
    pub rowid: i64,
    pub playlist_id: i64,
    pub path: Seq<char>,
    pub position: i64,
}

pub struct PlayData {
    pub id: i64,
    pub title: Seq<char>,
    pub artist: Seq<char>,
    pub album: Seq<char>,
    pub path: Option<Seq<char>>,
    pub date: Seq<char>,
    pub day: Option<Seq<char>>,
}

pub enum ChangeData {
    InsertPlaylist { id: i64, name: Seq<char> },
    DeletePlaylist { id: i64 },
    RenamePlaylist { id: i64, name: Seq<char> },
    SetCover { id: i64, cover: Seq<char> },
    InsertEntry { entry: EntryData },
    DeleteEntry { rowid: i64 },
    SetPositions { rowids: Seq<i64> },
    InsertPlay { play: PlayData },
    SetAccessed { playlist_id: i64, last_played: Seq<char> },
    SetSetting { key: Seq<char>, value: Seq<char> },
}

/// The characters of an optional text.
pub open spec fn text_view(s: Option<String>) -> Option<Seq<char>> {
    match s {
        Some(t) => Some(t@),
        None => None,
    }
}

impl View for PlaylistRecord {
    type V = PlaylistData;

    open spec fn view(&self) -> PlaylistData {
        PlaylistData { id: self.id, name: self.name@, cover: text_view(self.cover) }
    }
}

impl View for EntryRecord {
    type V = EntryData;

    open spec fn view(&self) -> EntryData {
        EntryData {
            rowid: self.rowid,
            playlist_id: self.playlist_id,
            path: self.path@,
            position: self.position,
        }
    }
}

impl View for PlayRecord {
    type V = PlayData;

    open spec fn view(&self) -> PlayData {
        PlayData {
            id: self.id,
            title: self.title@,
            artist: self.artist@,
            album: self.album@,
            path: text_view(self.path),
            date: self.date@,
            day: text_view(self.day),
        }
    }
}

pub open spec fn playlist_views(rows: Seq<PlaylistRecord>) -> Seq<PlaylistData> {
    rows.map_values(|r: PlaylistRecord| r@)
}

pub open spec fn entry_views(rows: Seq<EntryRecord>) -> Seq<EntryData> {
    rows.map_values(|r: EntryRecord| r@)
}

pub open spec fn play_views(rows: Seq<PlayRecord>) -> Seq<PlayData> {
    rows.map_values(|r: PlayRecord| r@)
}

impl View for Change {
    type V = ChangeData;

    open spec fn view(&self) -> ChangeData {
        match self {
            Change::InsertPlaylist { id, name } => ChangeData::InsertPlaylist {
                id: *id,
                name: name@,
            },
            Change::DeletePlaylist { id } => ChangeData::DeletePlaylist { id: *id },
            Change::RenamePlaylist { id, name } => ChangeData::RenamePlaylist {
                id: *id,
                name: name@,
            },
            Change::SetCover { id, cover } => ChangeData::SetCover { id: *id, cover: cover@ },
            Change::InsertEntry { entry } => ChangeData::InsertEntry { entry: entry@ },
            Change::DeleteEntry { rowid } => ChangeData::DeleteEntry { rowid: *rowid },
            Change::SetPositions { rowids } => ChangeData::SetPositions { rowids: rowids@ },
            Change::InsertPlay { play } => ChangeData::InsertPlay { play: play@ },
            Change::SetAccessed { playlist_id, last_played } => ChangeData::SetAccessed {
                playlist_id: *playlist_id,
                last_played: last_played@,
            },
            Change::SetSetting { key, value } => ChangeData::SetSetting {
                key: key@,
                value: value@,
            },
        }
    }
}

pub open spec fn change_views(changes: Seq<Change>) -> Seq<ChangeData> {
    changes.map_values(|c: Change| c@)
}

/// The smallest place of a row number in a list; the length where it is not in it.
pub open spec fn place_in(rowids: Seq<i64>, rowid: i64) -> int
    decreases rowids.len(),
{
    if rowids.len() == 0 || rowids[0] == rowid {
        0
    } else {
        1 + place_in(rowids.drop_first(), rowid)
    }
}

/// A song row once the listed rows have got the positions 0, 1 and so on.
pub open spec fn repositioned(e: EntryData, rowids: Seq<i64>) -> EntryData {
    if place_in(rowids, e.rowid) < rowids.len() {
        EntryData { position: place_in(rowids, e.rowid) as i64, ..e }
    } else {
        e
    }
}

/// The tables as mathematical values: the rows in the order of their row numbers.
#[verifier::ext_equal]
pub struct Tables {
    pub playlists: Seq<PlaylistData>,
    /// The largest playlist number ever given.
    pub playlist_seq: int,
    pub entries: Seq<EntryData>,
    pub history: Seq<PlayData>,
    /// The largest history number ever given.
    pub history_seq: int,
    /// When each playlist was last played.
    pub accessed: Map<i64, Seq<char>>,
    pub settings: Map<Seq<char>, Seq<char>>,
}

impl Tables {
    /// There is a playlist with this number.
    pub open spec fn has_playlist(self, id: i64) -> bool {
        exists|i: int| 0 <= i < self.playlists.len() && (#[trigger] self.playlists[i]).id == id
    }

    /// The row numbers ascend, none is above the largest ever given, and the rows can be counted.
    pub open spec fn wf(self) -> bool {
        &&& forall|i: int|
            0 <= i < self.playlists.len() ==> (#[trigger] self.playlists[i]).id
                <= self.playlist_seq
        &&& forall|i: int, j: int|
            0 <= i < j < self.playlists.len() ==> (#[trigger] self.playlists[i]).id < (
            #[trigger] self.playlists[j]).id
        &&& forall|i: int, j: int|
            0 <= i < j < self.entries.len() ==> (#[trigger] self.entries[i]).rowid < (
            #[trigger] self.entries[j]).rowid
        &&& forall|i: int|
            0 <= i < self.history.len() ==> (#[trigger] self.history[i]).id <= self.history_seq
        &&& forall|i: int, j: int|
            0 <= i < j < self.history.len() ==> (#[trigger] self.history[i]).id < (
            #[trigger] self.history[j]).id
        &&& i64::MIN <= self.playlist_seq <= i64::MAX
        &&& i64::MIN <= self.history_seq <= i64::MAX
        &&& self.entries.len() <= i64::MAX
        &&& self.history.len() <= i64::MAX
    }

    /// There is no number for another play, or the plays could no longer be counted.
    pub open spec fn history_is_full(self) -> bool {
        self.history_seq >= i64::MAX || self.history.len() >= i64::MAX
    }

    /// Every song and every last access belongs to a playlist.
    pub open spec fn references_hold(self) -> bool {
        &&& forall|i: int|
            0 <= i < self.entries.len() ==> self.has_playlist(
                (#[trigger] self.entries[i]).playlist_id,
            )
        &&& forall|id: i64| #[trigger] self.accessed.contains_key(id) ==> self.has_playlist(id)
    }

    /// The songs of the other playlists.
    pub open spec fn entries_of_others(self, playlist_id: i64) -> Seq<EntryData> {
        self.entries.filter(|e: EntryData| e.playlist_id != playlist_id)
    }

    /// The tables after a change.
    pub open spec fn apply(self, change: ChangeData) -> Tables {
        match change {
            ChangeData::InsertPlaylist { id, name } => Tables {
                playlists: self.playlists.push(PlaylistData { id, name, cover: None }),
                playlist_seq: id as int,
                ..self
            },
            ChangeData::DeletePlaylist { id } => if self.has_playlist(id) {
                Tables {
                    playlists: self.playlists.filter(|p: PlaylistData| p.id != id),
                    entries: self.entries_of_others(id),
                    accessed: self.accessed.remove(id),
                    ..self
                }
            } else {
                self
            },
            ChangeData::RenamePlaylist { id, name } => Tables {
                playlists: self.playlists.map_values(
                    |p: PlaylistData|
                        if p.id == id {
                            PlaylistData { name, ..p }
                        } else {
                            p
                        },
                ),
                ..self
            },
            ChangeData::SetCover { id, cover } => Tables {
                playlists: self.playlists.map_values(
                    |p: PlaylistData|
                        if p.id == id {
                            PlaylistData { cover: Some(cover), ..p }
                        } else {
                            p
                        },
                ),
                ..self
            },
            ChangeData::InsertEntry { entry } => Tables {
                entries: self.entries.push(entry),
                ..self
            },
            ChangeData::DeleteEntry { rowid } => Tables {
                entries: self.entries.filter(|e: EntryData| e.rowid != rowid),
                ..self
            },
            ChangeData::SetPositions { rowids } => Tables {
                entries: self.entries.map_values(|e: EntryData| repositioned(e, rowids)),
                ..self
            },
            ChangeData::InsertPlay { play } => Tables {
                history: self.history.push(play),
                history_seq: play.id as int,
                ..self
            },
            ChangeData::SetAccessed { playlist_id, last_played } => Tables {
                accessed: self.accessed.insert(playlist_id, last_played),
                ..self
            },
            ChangeData::SetSetting { key, value } => Tables {
                settings: self.settings.insert(key, value),
                ..self
            },
        }
    }

    /// The tables after changes, one after the other.
    pub open spec fn replay(self, changes: Seq<ChangeData>) -> Tables
        decreases changes.len(),
    {
        if changes.len() == 0 {
            self
        } else {
            self.replay(changes.drop_last()).apply(changes.last())
        }
    }

    /// Each of the changes is accepted by the tables that the changes before it lead to.
    pub open spec fn accepts_all(self, changes: Seq<ChangeData>) -> bool
        decreases changes.len(),
    {
        changes.len() > 0 ==> {
            &&& self.accepts_all(changes.drop_last())
            &&& self.replay(changes.drop_last()).accepts(changes.last())
        }
    }

    /// The change gives new rows the numbers that follow, and new songs and last accesses a
    /// playlist that is there, and no table grows beyond what can be counted.
    pub open spec fn accepts(self, change: ChangeData) -> bool {
        match change {
            ChangeData::InsertPlaylist { id, name } => id > self.playlist_seq,
            ChangeData::InsertEntry { entry } => {
                &&& self.entries.len() < i64::MAX
                &&& forall|i: int|
                    0 <= i < self.entries.len() ==> (#[trigger] self.entries[i]).rowid
                        < entry.rowid
                &&& self.has_playlist(entry.playlist_id)
            },
            ChangeData::SetPositions { rowids } => rowids.len() <= i64::MAX,
            ChangeData::InsertPlay { play } => {
                &&& self.history.len() < i64::MAX
                &&& play.id > self.history_seq
            },
            ChangeData::SetAccessed { playlist_id, last_played } => self.has_playlist(playlist_id),
            _ => true,
        }
    }
}

/// A filtered list is part of the list, in its order.
pub proof fn lemma_filter_places<T>(s: Seq<T>, keep: spec_fn(T) -> bool)
    ensures
        s.filter(keep).len() <= s.len(),
        forall|i: int|
            0 <= i < s.filter(keep).len() ==> {
                &&& keep(#[trigger] s.filter(keep)[i])
                &&& 0 <= filter_place(s, keep, i) < s.len()
                &&& s[filter_place(s, keep, i)] == s.filter(keep)[i]
            },
        forall|i: int, j: int|
            0 <= i < j < s.filter(keep).len() ==> #[trigger] filter_place(s, keep, i)
                < #[trigger] filter_place(s, keep, j),
    decreases s.len(),
{
    reveal(Seq::filter);
    let f = s.filter(keep);
    if s.len() == 0 {
        assert(f.len() == 0);
    } else {
        let shorter = s.drop_last();
        lemma_filter_places(shorter, keep);
        let g = shorter.filter(keep);
        assert(f == if keep(s.last()) { g.push(s.last()) } else { g });
        assert forall|i: int| 0 <= i < f.len() implies {
            &&& keep(#[trigger] f[i])
            &&& 0 <= filter_place(s, keep, i) < s.len()
            &&& s[filter_place(s, keep, i)] == f[i]
        } by {
            if i < g.len() {
                assert(keep(g[i]));
                assert(f[i] == g[i]);
                assert(filter_place(s, keep, i) == filter_place(shorter, keep, i));
                assert(shorter[filter_place(shorter, keep, i)] == g[i]);
            } else {
                assert(f[i] == s.last());
                assert(filter_place(s, keep, i) == s.len() - 1);
            }
        }
        assert forall|i: int, j: int| 0 <= i < j < f.len() implies #[trigger] filter_place(s, keep, i)
            < #[trigger] filter_place(s, keep, j) by {
            assert(keep(g[i]));
            assert(filter_place(s, keep, i) == filter_place(shorter, keep, i));
            if j < g.len() {
                assert(filter_place(s, keep, j) == filter_place(shorter, keep, j));
                assert(filter_place(shorter, keep, i) < filter_place(shorter, keep, j));
            } else {
                assert(filter_place(s, keep, j) == s.len() - 1);
            }
        }
    }
}

/// Where the row at place `i` of the filtered list stands in the list.
pub open spec fn filter_place<T>(s: Seq<T>, keep: spec_fn(T) -> bool, i: int) -> int
    decreases s.len(),
{
    if s.len() == 0 {
        0
    } else if keep(s.last()) && i == s.drop_last().filter(keep).len() {
        s.len() - 1
    } else {
        filter_place(s.drop_last(), keep, i)
    }
}

/// Filtering twice is filtering once where the second filter is the narrower one.
pub proof fn lemma_filter_filter<T>(s: Seq<T>, keep: spec_fn(T) -> bool, pick: spec_fn(T) -> bool)
    requires
        forall|x: T| #[trigger] pick(x) ==> keep(x),
    ensures
        s.filter(keep).filter(pick) == s.filter(pick),
    decreases s.len(),
{
    reveal(Seq::filter);
    if s.len() > 0 {
        let shorter = s.drop_last();
        lemma_filter_filter(shorter, keep, pick);
        if keep(s.last()) {
            let kept = shorter.filter(keep);
            assert(kept.push(s.last()).drop_last() =~= kept);
            assert(kept.push(s.last()).last() == s.last());
        }
    }
}

/// Filtering twice is filtering by both at once.
pub proof fn lemma_filter_and<T>(
    s: Seq<T>,
    keep: spec_fn(T) -> bool,
    pick: spec_fn(T) -> bool,
    both: spec_fn(T) -> bool,
)
    requires
        forall|x: T| #[trigger] both(x) <==> keep(x) && pick(x),
    ensures
        s.filter(keep).filter(pick) == s.filter(both),
    decreases s.len(),
{
    reveal(Seq::filter);
    if s.len() > 0 {
        let shorter = s.drop_last();
        lemma_filter_and(shorter, keep, pick, both);
        assert(both(s.last()) <==> keep(s.last()) && pick(s.last()));
        if keep(s.last()) {
            let kept = shorter.filter(keep);
            assert(kept.push(s.last()).drop_last() =~= kept);
            assert(kept.push(s.last()).last() == s.last());
        }
    }
}

/// The first row that passes a filter is the first of the filtered rows.
pub proof fn lemma_filter_first<T>(s: Seq<T>, keep: spec_fn(T) -> bool, i: int)
    requires
        0 <= i < s.len(),
        keep(s[i]),
        forall|j: int| 0 <= j < i ==> !keep(#[trigger] s[j]),
    ensures
        s.filter(keep).len() > 0,
        s.filter(keep)[0] == s[i],
    decreases s.len(),
{
    reveal(Seq::filter);
    let shorter = s.drop_last();
    if i == s.len() - 1 {
        lemma_filter_none(shorter, keep);
    } else {
        assert forall|j: int| 0 <= j < i implies !keep(#[trigger] shorter[j]) by {
            assert(shorter[j] == s[j]);
        }
        lemma_filter_first(shorter, keep, i);
    }
}

/// Filtering rows that were changed in what the filter does not look at.
pub proof fn lemma_filter_map<T>(s: Seq<T>, keep: spec_fn(T) -> bool, edit: spec_fn(T) -> T)
    requires
        forall|x: T| keep(#[trigger] edit(x)) == keep(x),
    ensures
        s.map_values(edit).filter(keep) == s.filter(keep).map_values(edit),
    decreases s.len(),
{
    reveal(Seq::filter);
    if s.len() > 0 {
        let shorter = s.drop_last();
        lemma_filter_map(shorter, keep, edit);
        assert(s.map_values(edit).drop_last() =~= shorter.map_values(edit));
        assert(s.map_values(edit).last() == edit(s.last()));
        assert(s.filter(keep).map_values(edit) =~= if keep(s.last()) {
            shorter.filter(keep).map_values(edit).push(edit(s.last()))
        } else {
            shorter.filter(keep).map_values(edit)
        });
    } else {
        assert(s.map_values(edit).filter(keep) =~= s.filter(keep).map_values(edit));
    }
}

/// A filter that every row passes leaves the rows as they are.
pub proof fn lemma_filter_all<T>(s: Seq<T>, keep: spec_fn(T) -> bool)
    requires
        forall|i: int| 0 <= i < s.len() ==> keep(#[trigger] s[i]),
    ensures
        s.filter(keep) == s,
    decreases s.len(),
{
    reveal(Seq::filter);
    if s.len() > 0 {
        let shorter = s.drop_last();
        assert forall|i: int| 0 <= i < shorter.len() implies keep(#[trigger] shorter[i]) by {
            assert(shorter[i] == s[i]);
        }
        lemma_filter_all(shorter, keep);
        assert(keep(s[s.len() - 1]));
        assert(shorter.push(s.last()) =~= s);
    } else {
        assert(s.filter(keep) =~= s);
    }
}

/// A filter that no row passes leaves none.
pub proof fn lemma_filter_none<T>(s: Seq<T>, keep: spec_fn(T) -> bool)
    requires
        forall|i: int| 0 <= i < s.len() ==> !keep(#[trigger] s[i]),
    ensures
        s.filter(keep) == Seq::<T>::empty(),
    decreases s.len(),
{
    reveal(Seq::filter);
    if s.len() > 0 {
        let shorter = s.drop_last();
        assert forall|i: int| 0 <= i < shorter.len() implies !keep(#[trigger] shorter[i]) by {
            assert(shorter[i] == s[i]);
        }
        lemma_filter_none(shorter, keep);
        assert(!keep(s[s.len() - 1]));
    }
}

/// A filter that one row fails leaves that row out.
pub proof fn lemma_filter_but_one<T>(s: Seq<T>, keep: spec_fn(T) -> bool, at: int)
    requires
        0 <= at < s.len(),
        !keep(s[at]),
        forall|i: int| 0 <= i < s.len() && i != at ==> keep(#[trigger] s[i]),
    ensures
        s.filter(keep) == s.remove(at),
    decreases s.len(),
{
    reveal(Seq::filter);
    let shorter = s.drop_last();
    if at == s.len() - 1 {
        assert forall|i: int| 0 <= i < shorter.len() implies keep(#[trigger] shorter[i]) by {
            assert(shorter[i] == s[i]);
        }
        lemma_filter_all(shorter, keep);
        assert(s.remove(at) =~= shorter);
    } else {
        assert forall|i: int| 0 <= i < shorter.len() && i != at implies keep(
            #[trigger] shorter[i],
        ) by {
            assert(shorter[i] == s[i]);
        }
        lemma_filter_but_one(shorter, keep, at);
        assert(keep(s[s.len() - 1]));
        assert(s.remove(at) =~= shorter.remove(at).push(s.last()));
    }
}

/// Filtering rows with one row more at the end.
pub proof fn lemma_filter_push<T>(s: Seq<T>, x: T, keep: spec_fn(T) -> bool)
    ensures
        s.push(x).filter(keep) == (if keep(x) {
            s.filter(keep).push(x)
        } else {
            s.filter(keep)
        }),
{
    reveal(Seq::filter);
    assert(s.push(x).drop_last() =~= s);
}

/// A change that the tables accept keeps them well formed.
pub proof fn law_apply_keeps_wf(t: Tables, change: ChangeData)
    requires
        t.wf(),
        t.accepts(change),
    ensures
        t.apply(change).wf(),
{
    match change {
        ChangeData::DeletePlaylist { id } => {
            lemma_filter_places(t.playlists, |p: PlaylistData| p.id != id);
            lemma_filter_places(t.entries, |e: EntryData| e.playlist_id != id);
        },
        ChangeData::DeleteEntry { rowid } => {
            lemma_filter_places(t.entries, |e: EntryData| e.rowid != rowid);
        },
        _ => {},
    }
}

/// A change that the tables accept keeps every song and every last access with a playlist.
pub proof fn law_apply_keeps_references(t: Tables, change: ChangeData)
    requires
        t.references_hold(),
        t.accepts(change),
    ensures
        t.apply(change).references_hold(),
{
    let after = t.apply(change);
    assert forall|id: i64| t.has_playlist(id) && !(change == ChangeData::DeletePlaylist {
        id,
    }) implies #[trigger] after.has_playlist(id) by {
        let i = choose|i: int| 0 <= i < t.playlists.len() && (#[trigger] t.playlists[i]).id == id;
        match change {
            ChangeData::DeletePlaylist { id: gone } => {
                let keep = |p: PlaylistData| p.id != gone;
                t.playlists.lemma_filter_contains(keep, i);
                if t.has_playlist(gone) {
                    let k = choose|k: int|
                        0 <= k < after.playlists.len() && after.playlists[k] == t.playlists[i];
                    assert(after.playlists[k].id == id);
                }
            },
            _ => {
                assert(after.playlists[i].id == id);
            },
        }
    }
    match change {
        ChangeData::DeletePlaylist { id } => {
            lemma_filter_places(t.entries, |e: EntryData| e.playlist_id != id);
        },
        ChangeData::DeleteEntry { rowid } => {
            lemma_filter_places(t.entries, |e: EntryData| e.rowid != rowid);
        },
        _ => {},
    }
}

/// Changes are carried out one after the other: none changes nothing, and one more is carried out
/// on what the earlier ones lead to.
pub proof fn law_changes_follow(t: Tables, changes: Seq<ChangeData>, change: ChangeData)
    ensures
        t.replay(Seq::empty()) == t,
        t.replay(changes.push(change)) == t.replay(changes).apply(change),
{
    assert(changes.push(change).drop_last() =~= changes);
}

/// A play is refused only where its number or the count of the plays would go beyond 64 bits.
pub proof fn law_history_has_room(t: Tables)
    requires
        t.wf(),
    ensures
        t.history_is_full() <==> t.history_seq == 0x7fff_ffff_ffff_ffff || t.history.len()
            == 0x7fff_ffff_ffff_ffff,
{
}

/// An optional text is there exactly where its view is, with the same characters.
pub proof fn law_optional_text(s: Option<String>)
    ensures
        text_view(s) is None <==> s is None,
        s matches Some(t) ==> text_view(s) == Some(t@),
{
}

/// No playlist number and no history number is ever given a second time.
pub proof fn law_numbers_are_new(t: Tables, change: ChangeData)
    requires
        t.wf(),
        t.accepts(change),
    ensures
        t.playlist_seq <= t.apply(change).playlist_seq,
        t.history_seq <= t.apply(change).history_seq,
        (change matches ChangeData::InsertPlaylist { id, name } ==> !t.has_playlist(id) && id
            > t.playlist_seq),
        (change matches ChangeData::InsertPlay { play } ==> play.id > t.history_seq),
{
}

/// After any run of changes a playlist number that was ever given is at most the largest one, above
/// which the next is chosen: it is never given again, though its playlist may be gone.
pub proof fn law_numbers_never_return(t: Tables, changes: Seq<ChangeData>, k: int)
    requires
        t.wf(),
        t.accepts_all(changes),
        0 <= k < changes.len(),
    ensures
        t.replay(changes).wf(),
        t.playlist_seq <= t.replay(changes).playlist_seq,
        t.history_seq <= t.replay(changes).history_seq,
        (changes[k] matches ChangeData::InsertPlaylist { id, name } ==> t.playlist_seq < id
            <= t.replay(changes).playlist_seq),
        (changes[k] matches ChangeData::InsertPlay { play } ==> t.history_seq < play.id
            <= t.replay(changes).history_seq),
    decreases changes.len(),
{
    let shorter = changes.drop_last();
    let before = t.replay(shorter);
    if shorter.len() == 0 {
        assert(before == t);
    } else if k < shorter.len() {
        law_numbers_never_return(t, shorter, k);
        assert(shorter[k] == changes[k]);
    } else {
        law_numbers_never_return(t, shorter, 0);
    }
    law_apply_keeps_wf(before, changes.last());
    law_numbers_are_new(before, changes.last());
}

/// Two playlists of well-formed tables have different numbers.
pub proof fn lemma_ids_differ(t: Tables, i: int)
    requires
        t.wf(),
        0 <= i < t.playlists.len(),
    ensures
        forall|k: int|
            0 <= k < t.playlists.len() && k != i ==> (#[trigger] t.playlists[k]).id
                != t.playlists[i].id,
{
    assert forall|k: int| 0 <= k < t.playlists.len() && k != i implies (
    #[trigger] t.playlists[k]).id != t.playlists[i].id by {
        if k < i {
            assert(t.playlists[k].id < t.playlists[i].id);
        } else {
            assert(t.playlists[i].id < t.playlists[k].id);
        }
    }
}

/// The map that a list of pairs gives; of two pairs with one key the later counts.
pub open spec fn map_of<K, V>(pairs: Seq<(K, V)>) -> Map<K, V>
    decreases pairs.len(),
{
    if pairs.len() == 0 {
        Map::empty()
    } else {
        map_of(pairs.drop_last()).insert(pairs.last().0, pairs.last().1)
    }
}

/// No two pairs have one key.
pub open spec fn unique_keys<K, V>(pairs: Seq<(K, V)>) -> bool {
    forall|i: int, j: int|
        0 <= i < j < pairs.len() ==> (#[trigger] pairs[i]).0 != (#[trigger] pairs[j]).0
}

/// What the map of a list of pairs holds.
pub proof fn lemma_map_of<K, V>(pairs: Seq<(K, V)>)
    requires
        unique_keys(pairs),
    ensures
        forall|i: int|
            0 <= i < pairs.len() ==> map_of(pairs).contains_key((#[trigger] pairs[i]).0) && map_of(
                pairs,
            )[pairs[i].0] == pairs[i].1,
        forall|k: K| #[trigger]
            map_of(pairs).contains_key(k) ==> exists|i: int|
                0 <= i < pairs.len() && (#[trigger] pairs[i]).0 == k,
    decreases pairs.len(),
{
    if pairs.len() > 0 {
        let shorter = pairs.drop_last();
        assert forall|i: int, j: int| 0 <= i < j < shorter.len() implies (#[trigger] shorter[i]).0 != (
        #[trigger] shorter[j]).0 by {
            assert(shorter[i] == pairs[i] && shorter[j] == pairs[j]);
        }
        lemma_map_of(shorter);
        assert forall|i: int| 0 <= i < pairs.len() implies map_of(pairs).contains_key(
            (#[trigger] pairs[i]).0,
        ) && map_of(pairs)[pairs[i].0] == pairs[i].1 by {
            if i < shorter.len() {
                assert(shorter[i] == pairs[i]);
                assert(pairs[i].0 != pairs[pairs.len() - 1].0);
            }
        }
        assert forall|k: K| #[trigger] map_of(pairs).contains_key(k) implies exists|i: int|
            0 <= i < pairs.len() && (#[trigger] pairs[i]).0 == k by {
            if k == pairs.last().0 {
                assert(pairs[pairs.len() - 1].0 == k);
            } else {
                assert(map_of(shorter).contains_key(k));
                let i = choose|i: int| 0 <= i < shorter.len() && (#[trigger] shorter[i]).0 == k;
                assert(pairs[i].0 == k);
            }
        }
    }
}

/// Another value under a key that is there.
pub proof fn lemma_map_update<K, V>(pairs: Seq<(K, V)>, i: int, v: V)
    requires
        unique_keys(pairs),
        0 <= i < pairs.len(),
    ensures
        unique_keys(pairs.update(i, (pairs[i].0, v))),
        map_of(pairs.update(i, (pairs[i].0, v))) == map_of(pairs).insert(pairs[i].0, v),
{
    let new = pairs.update(i, (pairs[i].0, v));
    assert forall|a: int, b: int| 0 <= a < b < new.len() implies (#[trigger] new[a]).0 != (
    #[trigger] new[b]).0 by {
        assert(new[a].0 == pairs[a].0 && new[b].0 == pairs[b].0);
    }
    lemma_map_of(pairs);
    lemma_map_of(new);
    assert forall|k: K| map_of(new).contains_key(k) == map_of(pairs).insert(
        pairs[i].0,
        v,
    ).contains_key(k) by {
        if map_of(new).contains_key(k) {
            let a = choose|a: int| 0 <= a < new.len() && (#[trigger] new[a]).0 == k;
            assert(pairs[a].0 == k);
        }
        if map_of(pairs).contains_key(k) {
            let a = choose|a: int| 0 <= a < pairs.len() && (#[trigger] pairs[a]).0 == k;
            assert(new[a].0 == k);
        }
        assert(new[i].0 == pairs[i].0);
    }
    assert forall|k: K| map_of(new).contains_key(k) implies map_of(new)[k] == map_of(pairs).insert(
        pairs[i].0,
        v,
    )[k] by {
        let a = choose|a: int| 0 <= a < new.len() && (#[trigger] new[a]).0 == k;
        assert(pairs[a].0 == k);
        assert(new[a].1 == if a == i { v } else { pairs[a].1 });
        if a != i {
            if a < i {
                assert(pairs[a].0 != pairs[i].0);
            } else {
                assert(pairs[i].0 != pairs[a].0);
            }
        }
    }
    assert(map_of(new) =~= map_of(pairs).insert(pairs[i].0, v));
}

/// A value under a key that is not there.
pub proof fn lemma_map_push<K, V>(pairs: Seq<(K, V)>, k: K, v: V)
    requires
        unique_keys(pairs),
        forall|i: int| 0 <= i < pairs.len() ==> (#[trigger] pairs[i]).0 != k,
    ensures
        unique_keys(pairs.push((k, v))),
        map_of(pairs.push((k, v))) == map_of(pairs).insert(k, v),
{
    assert(pairs.push((k, v)).drop_last() =~= pairs);
}

/// A key that goes.
pub proof fn lemma_map_remove<K, V>(pairs: Seq<(K, V)>, i: int)
    requires
        unique_keys(pairs),
        0 <= i < pairs.len(),
    ensures
        unique_keys(pairs.remove(i)),
        map_of(pairs.remove(i)) == map_of(pairs).remove(pairs[i].0),
{
    let new = pairs.remove(i);
    assert forall|a: int, b: int| 0 <= a < b < new.len() implies (#[trigger] new[a]).0 != (
    #[trigger] new[b]).0 by {
        let c = if a < i { a } else { a + 1 };
        let d = if b < i { b } else { b + 1 };
        assert(new[a] == pairs[c] && new[b] == pairs[d]);
    }
    lemma_map_of(pairs);
    lemma_map_of(new);
    assert forall|k: K| map_of(new).contains_key(k) == map_of(pairs).remove(
        pairs[i].0,
    ).contains_key(k) by {
        if map_of(new).contains_key(k) {
            let a = choose|a: int| 0 <= a < new.len() && (#[trigger] new[a]).0 == k;
            let c = if a < i { a } else { a + 1 };
            assert(pairs[c] == new[a]);
            if c < i {
                assert(pairs[c].0 != pairs[i].0);
            } else {
                assert(pairs[i].0 != pairs[c].0);
            }
        }
        if map_of(pairs).contains_key(k) && k != pairs[i].0 {
            let c = choose|c: int| 0 <= c < pairs.len() && (#[trigger] pairs[c]).0 == k;
            assert(new[if c < i { c } else { c - 1 }] == pairs[c]);
        }
    }
    assert forall|k: K| map_of(new).contains_key(k) implies map_of(new)[k] == map_of(pairs)[k] by {
        let a = choose|a: int| 0 <= a < new.len() && (#[trigger] new[a]).0 == k;
        let c = if a < i { a } else { a + 1 };
        assert(pairs[c] == new[a]);
    }
    assert(map_of(new) =~= map_of(pairs).remove(pairs[i].0));
}

} // verus!
