//! What holds of playlists and their songs across the operations of the store.

use vstd::prelude::*;
use vstd::seq_lib::to_multiset_build;

use crate::listing::access_keys;
use crate::listing::all_paths;
use crate::listing::folded_key;
use crate::listing::last_play_keys;
use crate::listing::latest_playlists;
use crate::listing::path_keys;
use crate::listing::paths_at;
use crate::listing::playlist_name_keys;
use crate::listing::playlists_by_name;
use crate::order::arranged;
use crate::order::is_permutation;
use crate::order::law_stable_order_exists;
use crate::order::law_stable_order_is_unique;
use crate::order::lemma_lex_total;
use crate::order::lex_less;
use crate::order::ordered_by;
use crate::order::ranks_before;
use crate::order::stable_order;
use crate::order_laws::law_largest_comes_first;
use crate::order_laws::law_largest_comes_last;
use crate::order_laws::law_order_permutes;
use crate::order_laws::law_sorted_rows_stay;
use crate::order_laws::lemma_order_contains;
use crate::playlists::entries_are_full;
use crate::playlists::entries_of;
use crate::playlists::moving;
use crate::playlists::next_rowid;
use crate::playlists::paths_of;
use crate::playlists::position_keys;
use crate::playlists::removing;
use crate::playlists::rowids_of;
use crate::playlists::same_but_positions;
use crate::playlists::song_rows;
use crate::playlists::songs_of;
use crate::playlists::text_views;
use crate::playlists::top_position;
use crate::relations::lemma_filter_lists;
use crate::relations::lemma_ordered_is_sorted;
use crate::relations::lists_those;
use crate::relations::sorted_stably;
use crate::tables::filter_place;
use crate::tables::law_apply_keeps_wf;
use crate::tables::lemma_filter_all;
use crate::tables::lemma_filter_and;
use crate::tables::lemma_filter_but_one;
use crate::tables::lemma_filter_filter;
use crate::tables::lemma_filter_map;
use crate::tables::lemma_filter_none;
use crate::tables::lemma_filter_places;
use crate::tables::lemma_filter_push;
use crate::tables::place_in;
use crate::tables::repositioned;
use crate::tables::ChangeData;
use crate::tables::EntryData;
use crate::tables::PlaylistData;
use crate::tables::Tables;
use crate::tally::first_indices;
use crate::tally::groups_by_key;
use crate::tally::keys_at;
use crate::tally::lemma_first_indices;
use crate::tally::lemma_text_key_injective;
use crate::tally::text_key;
use crate::tally_laws::law_first_rows;
use crate::tally_laws::law_groups_by_key;
use crate::tally_laws::lemma_reordered;
use crate::tally_laws::lemma_single;
use crate::tally_laws::one_of_each;

verus! {

/// No position is above the largest.
proof fn lemma_top_position(rows: Seq<EntryData>)
    ensures
        forall|i: int| 0 <= i < rows.len() ==> (#[trigger] rows[i]).position <= top_position(rows),
    decreases rows.len(),
{
    if rows.len() > 1 {
        let shorter = rows.drop_last();
        lemma_top_position(shorter);
        assert forall|i: int| 0 <= i < rows.len() implies (#[trigger] rows[i]).position
            <= top_position(rows) by {
            if i < shorter.len() {
                assert(rows[i] == shorter[i]);
            }
        }
    }
}

/// A song that is added to a playlist is its last one, behind the songs that it had. The songs of
/// the other playlists stay as they are.
pub proof fn law_added_song_is_last(t: Tables, entry: EntryData, other: i64)
    requires
        t.wf(),
        t.entries.len() < usize::MAX,
        entry.rowid == next_rowid(t.entries),
        entry.position == top_position(entries_of(t, entry.playlist_id)) + 1,
    ensures
        songs_of(t.apply(ChangeData::InsertEntry { entry }), entry.playlist_id) == songs_of(
            t,
            entry.playlist_id,
        ).push(entry.path),
        other != entry.playlist_id ==> songs_of(t.apply(ChangeData::InsertEntry { entry }), other)
            == songs_of(t, other),
{
    let id = entry.playlist_id;
    let after = t.apply(ChangeData::InsertEntry { entry });
    lemma_filter_push(t.entries, entry, |e: EntryData| e.playlist_id == id);
    lemma_filter_push(t.entries, entry, |e: EntryData| e.playlist_id == other);
    lemma_filter_places(t.entries, |e: EntryData| e.playlist_id == id);
    let rows = entries_of(t, id);
    let keys = position_keys(rows);
    lemma_top_position(rows);
    assert(entries_of(after, id) == rows.push(entry));
    assert(position_keys(rows.push(entry)) =~= keys.push(seq![entry.position]));
    assert forall|i: int| 0 <= i < keys.len() implies !lex_less(
        seq![entry.position],
        #[trigger] keys[i],
    ) by {
        assert(rows[i].position <= top_position(rows));
        lemma_single(entry.position, rows[i].position);
    }
    law_largest_comes_last(rows, keys, entry, seq![entry.position]);
    assert(songs_of(after, id) =~= songs_of(t, id).push(entry.path));
}

/// A row number that stands once in a list is found where it stands.
proof fn lemma_place_in(rowids: Seq<i64>, k: int)
    requires
        0 <= k < rowids.len(),
        forall|j: int| 0 <= j < k ==> #[trigger] rowids[j] != rowids[k],
    ensures
        place_in(rowids, rowids[k]) == k,
    decreases rowids.len(),
{
    if k > 0 {
        let rest = rowids.drop_first();
        assert(rowids[0] != rowids[k]);
        assert forall|j: int| 0 <= j < k - 1 implies #[trigger] rest[j] != rest[k - 1] by {
            assert(rest[j] == rowids[j + 1]);
        }
        lemma_place_in(rest, k - 1);
    }
}

/// A row number that is not in a list has no place in it.
proof fn lemma_no_place(rowids: Seq<i64>, rowid: i64)
    requires
        !rowids.contains(rowid),
    ensures
        place_in(rowids, rowid) == rowids.len(),
    decreases rowids.len(),
{
    if rowids.len() > 0 {
        let rest = rowids.drop_first();
        assert(rowids[0] != rowid);
        if rest.contains(rowid) {
            let k = choose|k: int| 0 <= k < rest.len() && rest[k] == rowid;
            assert(rowids[k + 1] == rowid);
        }
        lemma_no_place(rest, rowid);
    }
}

/// The rows of a playlist are rows of the table, in its order.
proof fn lemma_own_rows(t: Tables, id: i64)
    requires
        t.wf(),
    ensures
        entries_of(t, id).len() <= t.entries.len(),
        forall|i: int|
            0 <= i < entries_of(t, id).len() ==> (#[trigger] entries_of(t, id)[i]).playlist_id == id
                && t.entries.contains(entries_of(t, id)[i]),
        forall|i: int, j: int|
            0 <= i < j < entries_of(t, id).len() ==> (#[trigger] entries_of(t, id)[i]).rowid < (
            #[trigger] entries_of(t, id)[j]).rowid,
{
    let keep = |e: EntryData| e.playlist_id == id;
    lemma_filter_places(t.entries, keep);
    let own = entries_of(t, id);
    assert forall|i: int| 0 <= i < own.len() implies (#[trigger] own[i]).playlist_id == id
        && t.entries.contains(own[i]) by {
        assert(keep(own[i]));
        assert(t.entries[filter_place(t.entries, keep, i)] == own[i]);
    }
    assert forall|i: int, j: int| 0 <= i < j < own.len() implies (#[trigger] own[i]).rowid < (
    #[trigger] own[j]).rowid by {
        assert(keep(own[i]) && keep(own[j]));
        assert(filter_place(t.entries, keep, i) < filter_place(t.entries, keep, j));
    }
}

/// Two rows of the table with one number are one.
proof fn lemma_same_entry(t: Tables, a: EntryData, b: EntryData)
    requires
        t.wf(),
        t.entries.contains(a),
        t.entries.contains(b),
        a.rowid == b.rowid,
    ensures
        a == b,
{
    let i = choose|i: int| 0 <= i < t.entries.len() && t.entries[i] == a;
    let j = choose|j: int| 0 <= j < t.entries.len() && t.entries[j] == b;
    if i < j {
        assert(t.entries[i].rowid < t.entries[j].rowid);
    } else if j < i {
        assert(t.entries[j].rowid < t.entries[i].rowid);
    }
}

/// The song rows have the positions 0, 1 and so on.
pub open spec fn numbered(rows: Seq<EntryData>) -> bool {
    forall|k: int| 0 <= k < rows.len() ==> (#[trigger] rows[k]).position == k
}

/// The rows of a playlist, given positions in some order, stand in that order. The other playlists
/// stay as they are.
proof fn lemma_positions_set(t: Tables, id: i64, order: Seq<usize>, other: i64)
    requires
        t.wf(),
        t.entries.len() <= usize::MAX,
        is_permutation(order, entries_of(t, id).len()),
        order.no_duplicates(),
    ensures
        ({
            let own = entries_of(t, id);
            let change = ChangeData::SetPositions { rowids: rowids_of(arranged(own, order)) };
            &&& songs_of(t.apply(change), id) == paths_of(arranged(own, order))
            &&& numbered(song_rows(t.apply(change), id))
            &&& other != id ==> songs_of(t.apply(change), other) == songs_of(t, other)
        }),
{
    let own = entries_of(t, id);
    let rowids = rowids_of(arranged(own, order));
    let after = t.apply(ChangeData::SetPositions { rowids });
    let edit = |e: EntryData| repositioned(e, rowids);
    let is_own = |e: EntryData| e.playlist_id == id;
    lemma_own_rows(t, id);
    lemma_filter_map(t.entries, is_own, edit);
    let placed = own.map_values(edit);
    assert(entries_of(after, id) =~= placed);
    assert forall|k: int| 0 <= k < order.len() implies placed[#[trigger] order[k] as int]
        == (EntryData { position: k as i64, ..own[order[k] as int] }) by {
        assert(order[k] < own.len());
        assert(rowids[k] == own[order[k] as int].rowid);
        assert forall|j: int| 0 <= j < k implies #[trigger] rowids[j] != rowids[k] by {
            assert(order[j] < own.len() && order[j] != order[k]);
            assert(rowids[j] == own[order[j] as int].rowid);
            if order[j] < order[k] {
                assert(own[order[j] as int].rowid < own[order[k] as int].rowid);
            } else {
                assert(own[order[k] as int].rowid < own[order[j] as int].rowid);
            }
        }
        lemma_place_in(rowids, k);
    }
    let keys = position_keys(placed);
    assert forall|i: int, j: int| 0 <= i < j < order.len() implies ranks_before(
        keys,
        false,
        #[trigger] order[i],
        #[trigger] order[j],
    ) by {
        assert(order[i] < own.len() && order[j] < own.len());
        assert(placed[order[i] as int].position == i && placed[order[j] as int].position == j);
        lemma_single(i as i64, j as i64);
        lemma_single(j as i64, i as i64);
    }
    law_stable_order_exists(keys, false);
    law_stable_order_is_unique(keys, false, order, stable_order(keys, false));
    assert forall|k: int| 0 <= k < order.len() implies paths_of(song_rows(after, id))[k]
        == #[trigger] paths_of(arranged(own, order))[k] by {
        assert(order[k] < own.len());
        assert(placed[order[k] as int].path == own[order[k] as int].path);
    }
    assert(songs_of(after, id) =~= paths_of(arranged(own, order)));
    assert forall|k: int| 0 <= k < song_rows(after, id).len() implies (
    #[trigger] song_rows(after, id)[k]).position == k by {
        assert(order[k] < own.len());
        assert(song_rows(after, id)[k] == placed[order[k] as int]);
    }
    if other != id {
        let theirs = |e: EntryData| e.playlist_id == other;
        lemma_filter_map(t.entries, theirs, edit);
        lemma_own_rows(t, other);
        let rows = entries_of(t, other);
        assert forall|i: int| 0 <= i < rows.len() implies edit(#[trigger] rows[i]) == rows[i] by {
            if rowids.contains(rows[i].rowid) {
                let k = choose|k: int| 0 <= k < rowids.len() && rowids[k] == rows[i].rowid;
                assert(order[k] < own.len());
                assert(rowids[k] == own[order[k] as int].rowid);
                lemma_same_entry(t, own[order[k] as int], rows[i]);
            }
            lemma_no_place(rowids, rows[i].rowid);
        }
        assert(entries_of(after, other) =~= rows);
    }
}

/// A song that was moved stands at its new place, the others behind and before it in their order,
/// and their positions are 0, 1 and so on.
/// No row is added, lost or numbered anew, so that the library lists what it did in every sort
/// mode; the other playlists, the plays and the settings stay as they are.
pub proof fn law_moved_song_reads_back(t: Tables, id: i64, from: int, to: int, other: i64)
    requires
        t.wf(),
        t.entries.len() <= usize::MAX,
        0 <= from < songs_of(t, id).len(),
        0 <= to < songs_of(t, id).len(),
    ensures
        ({
            let after = t.apply(moving(t, id, from, to));
            let songs = songs_of(t, id);
            &&& t.accepts(moving(t, id, from, to))
            &&& songs_of(after, id) == songs.remove(from).insert(to, songs[from])
            &&& numbered(song_rows(after, id))
            &&& other != id ==> songs_of(after, other) == songs_of(t, other)
            &&& same_but_positions(t.entries, after.entries)
            &&& forall|sort: i32| #[trigger] all_paths(after, sort) == all_paths(t, sort)
            &&& after.playlists == t.playlists
            &&& after.history == t.history
            &&& after.accessed == t.accessed
            &&& after.settings == t.settings
        }),
{
    let own = entries_of(t, id);
    let keys = position_keys(own);
    lemma_own_rows(t, id);
    lemma_order_contains(own, keys, false);
    let order = stable_order(keys, false);
    let rows = song_rows(t, id);
    let moved = order.remove(from).insert(to, order[from]);
    assert forall|i: int| 0 <= i < moved.len() implies #[trigger] moved[i] == order[unmoved(
        i,
        from,
        to,
    )] by {}
    assert forall|i: int| 0 <= i < moved.len() implies #[trigger] moved[i] < own.len() by {
        assert(order[unmoved(i, from, to)] < own.len());
    }
    assert forall|v: usize| v < own.len() implies #[trigger] moved.contains(v) by {
        assert(order.contains(v));
        let k = choose|k: int| 0 <= k < order.len() && order[k] == v;
        assert(moved[unmoved(k, to, from)] == v);
    }
    assert(moved.no_duplicates()) by {
        assert forall|i: int, j: int| 0 <= i < moved.len() && 0 <= j < moved.len() && i
            != j implies moved[i] != moved[j] by {
            assert(unmoved(i, from, to) != unmoved(j, from, to));
        }
    }
    lemma_positions_set(t, id, moved, other);
    assert(arranged(own, moved) =~= rows.remove(from).insert(to, rows[from]));
    let songs = songs_of(t, id);
    assert(paths_of(arranged(own, moved)) =~= songs.remove(from).insert(to, songs[from]));
    let after = t.apply(moving(t, id, from, to));
    assert(paths_of(after.entries) =~= paths_of(t.entries));
    assert forall|sort: i32| #[trigger] all_paths(after, sort) == all_paths(t, sort) by {
        lemma_library_of_paths(t, after, sort);
    }
}

/// Where the song at place `i` stood before the one at `from` went to `to`.
spec fn unmoved(i: int, from: int, to: int) -> int {
    if i == to {
        from
    } else if from <= i < to {
        i + 1
    } else if to < i <= from {
        i - 1
    } else {
        i
    }
}

/// What the library lists depends on the paths of the songs and on the plays alone.
proof fn lemma_library_of_paths(t: Tables, after: Tables, sort: i32)
    requires
        t.entries.len() <= usize::MAX,
        paths_of(after.entries) == paths_of(t.entries),
        after.history == t.history,
    ensures
        all_paths(after, sort) == all_paths(t, sort),
{
    assert(after.entries.len() == paths_of(after.entries).len());
    assert(t.entries.len() == paths_of(t.entries).len());
    assert forall|i: int| 0 <= i < t.entries.len() implies (#[trigger] after.entries[i]).path
        == t.entries[i].path by {
        assert(paths_of(after.entries)[i] == paths_of(t.entries)[i]);
    }
    assert(path_keys(after.entries) =~= path_keys(t.entries));
    let keys = path_keys(t.entries);
    lemma_library_places(t, sort);
    lemma_library_places(after, sort);
    if sort == 2 {
        law_groups_by_key(keys, false);
        let groups = groups_by_key(keys, false);
        assert forall|k: int| 0 <= k < groups.len() implies #[trigger] last_play_keys(
            after,
            groups,
        )[k] == last_play_keys(t, groups)[k] by {
            assert(groups[k] < keys.len());
            assert(after.entries[groups[k] as int].path == t.entries[groups[k] as int].path);
        }
        assert(last_play_keys(after, groups) =~= last_play_keys(t, groups));
    }
    let places = library_places(t, sort);
    assert(library_places(after, sort) == places);
    assert forall|k: int| 0 <= k < places.len() implies #[trigger] paths_at(after.entries, places)[k]
        == paths_at(t.entries, places)[k] by {
        assert(places[k] < keys.len());
        assert(after.entries[places[k] as int].path == t.entries[places[k] as int].path);
    }
    assert(paths_at(after.entries, places) =~= paths_at(t.entries, places));
    assert(all_paths(t, sort) =~= paths_at(t.entries, places));
    assert(all_paths(after, sort) =~= paths_at(after.entries, places));
}

/// A song that was removed is gone, and the others follow each other as before, at the positions 0,
/// 1 and so on. Its row leaves and no other row is numbered anew; the other playlists, the plays and
/// the settings stay as they are.
pub proof fn law_removed_song_reads_back(t: Tables, id: i64, index: int, other: i64)
    requires
        t.wf(),
        t.entries.len() <= usize::MAX,
        0 <= index < songs_of(t, id).len(),
    ensures
        ({
            let after = t.replay(removing(t, id, index));
            let gone = song_rows(t, id)[index].rowid;
            &&& t.accepts_all(removing(t, id, index))
            &&& songs_of(after, id) == songs_of(t, id).remove(index)
            &&& numbered(song_rows(after, id))
            &&& other != id ==> songs_of(after, other) == songs_of(t, other)
            &&& same_but_positions(
                t.entries.filter(|e: EntryData| e.rowid != gone),
                after.entries,
            )
            &&& after.playlists == t.playlists
            &&& after.history == t.history
            &&& after.accessed == t.accessed
            &&& after.settings == t.settings
        }),
{
    let own = entries_of(t, id);
    let keys = position_keys(own);
    lemma_own_rows(t, id);
    lemma_order_contains(own, keys, false);
    let order = stable_order(keys, false);
    let rows = song_rows(t, id);
    let g = order[index] as int;
    assert(order[index] < own.len());
    assert(rows[index] == own[g]);
    let gone = rows[index].rowid;
    let c = removing(t, id, index);
    assert(c.drop_last() =~= seq![c[0]]);
    assert(c.drop_last().drop_last() =~= Seq::<ChangeData>::empty());
    reveal_with_fuel(Tables::replay, 3);
    reveal_with_fuel(Tables::accepts_all, 3);
    let left = t.apply(c[0]);
    law_apply_keeps_wf(t, c[0]);
    assert(t.replay(c) == left.apply(c[1]));

    // What the removal of the row leaves of the playlist.
    let is_own = |e: EntryData| e.playlist_id == id;
    let stays = |e: EntryData| e.rowid != gone;
    let both = |e: EntryData| e.playlist_id == id && e.rowid != gone;
    lemma_filter_and(t.entries, stays, is_own, both);
    lemma_filter_and(t.entries, is_own, stays, both);
    assert forall|k: int| 0 <= k < own.len() && k != g implies stays(#[trigger] own[k]) by {
        if k < g {
            assert(own[k].rowid < own[g].rowid);
        } else {
            assert(own[g].rowid < own[k].rowid);
        }
    }
    lemma_filter_but_one(own, stays, g);
    let own_left = entries_of(left, id);
    assert(own_left == own.remove(g));
    lemma_filter_places(t.entries, stays);

    // The order of what is left.
    let behind = order.remove(index);
    let order_left = behind.map_values(|i: usize| if i > g { (i - 1) as usize } else { i });
    assert forall|k: int| 0 <= k < behind.len() implies {
        &&& #[trigger] behind[k] != g
        &&& behind[k] < own.len()
        &&& own_left[order_left[k] as int] == own[behind[k] as int]
        &&& order_left[k] < own_left.len()
    } by {
        let m = if k < index { k } else { k + 1 };
        assert(behind[k] == order[m]);
        assert(order[m] != order[index]);
        assert(order[m] < own.len());
    }
    assert forall|k: int| 0 <= k < order_left.len() implies #[trigger] order_left[k]
        < own_left.len() by {
        assert(behind[k] < own.len());
    }
    assert forall|v: usize| v < own_left.len() implies #[trigger] order_left.contains(v) by {
        let w = if v >= g { (v + 1) as usize } else { v };
        assert(order.contains(w));
        let m = choose|m: int| 0 <= m < order.len() && order[m] == w;
        let k = if m < index { m } else { m - 1 };
        assert(m != index);
        assert(behind[k] == w);
        assert(order_left[k] == v);
    }
    assert(order_left.no_duplicates()) by {
        assert forall|i: int, j: int| 0 <= i < order_left.len() && 0 <= j < order_left.len() && i
            != j implies order_left[i] != order_left[j] by {
            let a = if i < index { i } else { i + 1 };
            let b = if j < index { j } else { j + 1 };
            assert(behind[i] == order[a] && behind[j] == order[b]);
            assert(behind[i] != g && behind[j] != g);
        }
    }
    lemma_positions_set(left, id, order_left, other);
    assert(arranged(own_left, order_left) =~= rows.remove(index)) by {
        assert forall|k: int| 0 <= k < order_left.len() implies #[trigger] arranged(
            own_left,
            order_left,
        )[k] == rows.remove(index)[k] by {
            assert(own_left[order_left[k] as int] == own[behind[k] as int]);
            let m = if k < index { k } else { k + 1 };
            assert(behind[k] == order[m]);
            assert(rows[m] == own[order[m] as int]);
        }
    }
    assert(paths_of(rows.remove(index)) =~= songs_of(t, id).remove(index));
    if other != id {
        let theirs = |e: EntryData| e.playlist_id == other;
        let theirs_left = |e: EntryData| e.playlist_id == other && e.rowid != gone;
        lemma_filter_and(t.entries, stays, theirs, theirs_left);
        lemma_filter_and(t.entries, theirs, stays, theirs_left);
        lemma_own_rows(t, other);
        let rows_of_other = entries_of(t, other);
        assert forall|i: int| 0 <= i < rows_of_other.len() implies stays(
            #[trigger] rows_of_other[i],
        ) by {
            if rows_of_other[i].rowid == gone {
                lemma_same_entry(t, own[g], rows_of_other[i]);
            }
        }
        lemma_filter_all(rows_of_other, stays);
        assert(entries_of(left, other) == rows_of_other);
    }
    let after = t.replay(c);
    assert(same_but_positions(left.entries, after.entries));
}

/// A song that is moved and moved back leaves the songs as they were.
pub proof fn law_song_moves_back(songs: Seq<Seq<char>>, from: int, to: int)
    requires
        0 <= from < songs.len(),
        0 <= to < songs.len(),
    ensures
        ({
            let moved = songs.remove(from).insert(to, songs[from]);
            moved.remove(to).insert(from, moved[to]) == songs
        }),
{
    let moved = songs.remove(from).insert(to, songs[from]);
    assert(moved.remove(to) =~= songs.remove(from));
    assert(moved.remove(to).insert(from, moved[to]) =~= songs);
}

/// A playlist that was created is there under its name, without a cover and without songs, and the
/// list of playlists gains it and nothing else. Every other playlist is there as before with its
/// songs. Its number is above every number given before.
pub proof fn law_created_playlist_is_empty(t: Tables, id: i64, name: Seq<char>, other: i64)
    requires
        t.wf(),
        t.playlists.len() < usize::MAX,
        id > t.playlist_seq,
        forall|i: int| 0 <= i < t.entries.len() ==> (#[trigger] t.entries[i]).playlist_id != id,
    ensures
        ({
            let after = t.apply(ChangeData::InsertPlaylist { id, name });
            let row = PlaylistData { id, name, cover: None };
            &&& after.playlists == t.playlists.push(row)
            &&& playlists_by_name(after).to_multiset() == playlists_by_name(
                t,
            ).to_multiset().insert(row)
            &&& after.has_playlist(id)
            &&& entries_of(after, id).len() == 0
            &&& songs_of(after, id) == Seq::<Seq<char>>::empty()
            &&& !t.has_playlist(id)
            &&& other != id ==> after.has_playlist(other) == t.has_playlist(other)
            &&& entries_of(after, other) == entries_of(t, other)
            &&& songs_of(after, other) == songs_of(t, other)
        }),
{
    let after = t.apply(ChangeData::InsertPlaylist { id, name });
    let row = PlaylistData { id, name, cover: None };
    let n = t.playlists.len() as int;
    assert(after.playlists[n].id == id);
    law_playlists_are_listed(t);
    law_playlists_are_listed(after);
    to_multiset_build(t.playlists, row);
    if t.has_playlist(other) {
        let i = choose|i: int|
            0 <= i < t.playlists.len() && (#[trigger] t.playlists[i]).id == other;
        assert(after.playlists[i].id == other);
    }
    if after.has_playlist(other) && other != id {
        let i = choose|i: int|
            0 <= i < after.playlists.len() && (#[trigger] after.playlists[i]).id == other;
        assert(t.playlists[i].id == other);
    }
    lemma_filter_none(t.entries, |e: EntryData| e.playlist_id == id);
    let none = Seq::<EntryData>::empty();
    law_sorted_rows_stay(none, position_keys(none));
    assert(songs_of(after, id) =~= Seq::<Seq<char>>::empty());
}

/// Where every song belongs to a playlist, none belongs to one that is yet to be created.
pub proof fn law_no_song_waits(t: Tables, id: i64, i: int)
    requires
        t.wf(),
        t.references_hold(),
        id > t.playlist_seq,
        0 <= i < t.entries.len(),
    ensures
        t.entries[i].playlist_id != id,
{
    assert(t.has_playlist(t.entries[i].playlist_id));
}

/// A playlist that was deleted is gone with its songs and its last access. Every other playlist is
/// there as before with its songs, and the plays and the settings stay.
pub proof fn law_deleted_playlist_is_gone(t: Tables, id: i64, other: i64)
    requires
        t.wf(),
    ensures
        ({
            let after = t.apply(ChangeData::DeletePlaylist { id });
            &&& !after.has_playlist(id)
            &&& t.has_playlist(id) || t.references_hold() ==> {
                &&& songs_of(after, id) == Seq::<Seq<char>>::empty()
                &&& !after.accessed.contains_key(id)
            }
            &&& other != id ==> {
                &&& after.has_playlist(other) == t.has_playlist(other)
                &&& songs_of(after, other) == songs_of(t, other)
                &&& after.accessed.contains_key(other) == t.accessed.contains_key(other)
            }
            &&& after.history == t.history
            &&& after.settings == t.settings
        }),
{
    let after = t.apply(ChangeData::DeletePlaylist { id });
    let keep = |p: PlaylistData| p.id != id;
    let own = |e: EntryData| e.playlist_id == id;
    let not_own = |e: EntryData| e.playlist_id != id;
    lemma_filter_places(t.playlists, keep);
    lemma_filter_places(t.entries, not_own);
    let none = Seq::<EntryData>::empty();
    law_sorted_rows_stay(none, position_keys(none));
    if t.has_playlist(id) {
        lemma_filter_none(after.entries, own);
    } else if t.references_hold() {
        assert forall|i: int| 0 <= i < t.entries.len() implies (
        #[trigger] t.entries[i]).playlist_id != id by {
            assert(t.has_playlist(t.entries[i].playlist_id));
        }
        lemma_filter_none(after.entries, own);
    }
    if other != id {
        lemma_filter_filter(t.entries, not_own, |e: EntryData| e.playlist_id == other);
        if t.has_playlist(other) {
            let i = choose|i: int|
                0 <= i < t.playlists.len() && (#[trigger] t.playlists[i]).id == other;
            t.playlists.lemma_filter_contains(keep, i);
            if t.has_playlist(id) {
                let k = choose|k: int|
                    0 <= k < after.playlists.len() && after.playlists[k] == t.playlists[i];
                assert(after.playlists[k].id == other);
            }
        }
        if after.has_playlist(other) && t.has_playlist(id) {
            let k = choose|k: int|
                0 <= k < after.playlists.len() && (#[trigger] after.playlists[k]).id == other;
            assert(t.playlists.filter(keep)[k] == after.playlists[k]);
            assert(t.playlists[filter_place(t.playlists, keep, k)].id == other);
        }
    }
    assert(paths_of(none) =~= Seq::<Seq<char>>::empty());
    if t.has_playlist(id) || t.references_hold() {
        assert(entries_of(after, id) =~= none);
        assert(songs_of(after, id) =~= Seq::<Seq<char>>::empty());
    }
}

/// Renaming a playlist, or giving it a cover, changes that playlist and nothing else.
pub proof fn law_playlist_edits_are_local(
    t: Tables,
    id: i64,
    text: Seq<char>,
    other: i64,
    i: int,
)
    requires
        0 <= i < t.playlists.len(),
    ensures
        ({
            let renamed = t.apply(ChangeData::RenamePlaylist { id, name: text });
            let covered = t.apply(ChangeData::SetCover { id, cover: text });
            let p = t.playlists[i];
            &&& renamed.playlists.len() == t.playlists.len()
            &&& covered.playlists.len() == t.playlists.len()
            &&& renamed.playlists[i] == if p.id == id {
                PlaylistData { name: text, ..p }
            } else {
                p
            }
            &&& covered.playlists[i] == if p.id == id {
                PlaylistData { cover: Some(text), ..p }
            } else {
                p
            }
            &&& songs_of(renamed, other) == songs_of(t, other)
            &&& songs_of(covered, other) == songs_of(t, other)
        }),
{
}

/// Every playlist is listed once, and the list ascends by name.
pub proof fn law_playlists_are_listed(t: Tables)
    requires
        t.playlists.len() <= usize::MAX,
    ensures
        playlists_by_name(t).len() == t.playlists.len(),
        playlists_by_name(t).to_multiset() == t.playlists.to_multiset(),
        forall|i: int, j: int|
            0 <= i < j < playlists_by_name(t).len() ==> !lex_less(
                folded_key((#[trigger] playlists_by_name(t)[j]).name),
                folded_key((#[trigger] playlists_by_name(t)[i]).name),
            ),
{
    let keys = playlist_name_keys(t.playlists);
    law_order_permutes(t.playlists, keys, false);
    lemma_order_contains(t.playlists, keys, false);
    let order = stable_order(keys, false);
    let out = playlists_by_name(t);
    assert forall|i: int, j: int| 0 <= i < j < out.len() implies !lex_less(
        folded_key((#[trigger] out[j]).name),
        folded_key((#[trigger] out[i]).name),
    ) by {
        assert(ranks_before(keys, false, order[i], order[j]));
        assert(order[i] < t.playlists.len() && order[j] < t.playlists.len());
        assert(out[i] == t.playlists[order[i] as int] && out[j] == t.playlists[order[j] as int]);
        lemma_lex_total(keys[order[i] as int], keys[order[j] as int]);
    }
}

/// A playlist that is played comes first among those played last, where the time is later than that
/// of every other access.
pub proof fn law_played_playlist_comes_first(t: Tables, i: int, now: Seq<char>, limit: int)
    requires
        t.wf(),
        0 <= i < t.playlists.len() <= usize::MAX,
        limit != 0,
        forall|id: i64|
            t.accessed.contains_key(id) && id != t.playlists[i].id ==> lex_less(
                text_key(#[trigger] t.accessed[id]),
                text_key(now),
            ),
    ensures
        latest_playlists(
            t.apply(
                ChangeData::SetAccessed { playlist_id: t.playlists[i].id, last_played: now },
            ),
            limit,
        )[0] == t.playlists[i],
{
    let id = t.playlists[i].id;
    let after = t.apply(ChangeData::SetAccessed { playlist_id: id, last_played: now });
    let keys = access_keys(after);
    let latest = seq![1i64] + text_key(now);
    assert(keys[i] == latest);
    assert forall|k: int| 0 <= k < keys.len() && k != i implies lex_less(
        #[trigger] keys[k],
        keys[i],
    ) by {
        let p = after.playlists[k];
        if k < i {
            assert(t.playlists[k].id < t.playlists[i].id);
        } else {
            assert(t.playlists[i].id < t.playlists[k].id);
        }
        if after.accessed.contains_key(p.id) {
            assert(t.accessed.contains_key(p.id));
            let when = text_key(t.accessed[p.id]);
            assert(keys[k] == seq![1i64] + when);
            assert((seq![1i64] + when).drop_first() =~= when);
            assert(latest.drop_first() =~= text_key(now));
            assert((seq![1i64] + when)[0] == latest[0]);
        } else {
            assert(keys[k] =~= Seq::<i64>::empty());
        }
    }
    law_largest_comes_first(after.playlists, keys, i);
    lemma_order_contains(after.playlists, keys, true);
}

/// The library lists every song of every playlist, and none twice, in each sort mode. The songs
/// added last come first in one mode exactly as they come last in the other.
pub proof fn law_library_lists_all(t: Tables, sort: i32)
    requires
        t.entries.len() <= usize::MAX,
    ensures
        all_paths(t, sort).no_duplicates(),
        forall|i: int|
            0 <= i < t.entries.len() ==> all_paths(t, sort).contains(
                (#[trigger] t.entries[i]).path,
            ),
        forall|k: int|
            0 <= k < all_paths(t, sort).len() ==> paths_of(t.entries).contains(
                #[trigger] all_paths(t, sort)[k],
            ),
        all_paths(t, 1) == all_paths(t, 0).reverse(),
{
    let keys = path_keys(t.entries);
    let places = library_places(t, sort);
    lemma_library_places(t, sort);
    let paths = all_paths(t, sort);
    assert(paths =~= paths_at(t.entries, places));
    assert forall|a: int, b: int| 0 <= a < paths.len() && 0 <= b < paths.len() && a
        != b implies paths[a] != paths[b] by {
        assert(keys[places[a] as int] != keys[places[b] as int]);
    }
    assert forall|i: int| 0 <= i < t.entries.len() implies paths.contains(
        (#[trigger] t.entries[i]).path,
    ) by {
        assert(keys_at(keys, places).contains(keys[i]));
        let k = choose|k: int|
            0 <= k < places.len() && keys_at(keys, places)[k] == keys[i];
        assert(places[k] < keys.len());
        lemma_text_key_injective(t.entries[places[k] as int].path, t.entries[i].path);
        assert(paths[k] == t.entries[i].path);
    }
    assert forall|k: int| 0 <= k < paths.len() implies paths_of(t.entries).contains(
        #[trigger] paths[k],
    ) by {
        assert(places[k] < keys.len());
        assert(paths_of(t.entries)[places[k] as int] == paths[k]);
    }
}

/// A song whose file is new to the library comes first among those added last once it is added, and
/// the others follow as before.
pub proof fn law_added_file_leads_library(t: Tables, entry: EntryData)
    requires
        t.entries.len() < usize::MAX,
        !paths_of(t.entries).contains(entry.path),
    ensures
        all_paths(t.apply(ChangeData::InsertEntry { entry }), 1) == seq![entry.path] + all_paths(
            t,
            1,
        ),
{
    let after = t.apply(ChangeData::InsertEntry { entry });
    let keys = path_keys(t.entries);
    let all = path_keys(after.entries);
    let n = keys.len() as int;
    assert(all.drop_last() =~= keys);
    assert(all.last() == text_key(entry.path));
    if keys.contains(all.last()) {
        let k = choose|k: int| 0 <= k < keys.len() && keys[k] == all.last();
        lemma_text_key_injective(t.entries[k].path, entry.path);
        assert(paths_of(t.entries)[k] == entry.path);
    }
    let firsts = first_indices(keys);
    lemma_first_indices(keys);
    assert(first_indices(all) == firsts.push(n as usize));
    let before = paths_at(t.entries, firsts);
    assert forall|k: int| 0 <= k < firsts.len() implies #[trigger] paths_at(
        after.entries,
        firsts.push(n as usize),
    )[k] == before[k] by {
        assert(firsts[k] < keys.len());
    }
    assert(paths_at(after.entries, firsts.push(n as usize)) =~= before.push(entry.path));
    assert(before.push(entry.path).reverse() =~= seq![entry.path] + before.reverse());
}

/// The rows whose paths the library lists.
spec fn library_places(t: Tables, sort: i32) -> Seq<usize> {
    let keys = path_keys(t.entries);
    if sort == 1 {
        first_indices(keys).reverse()
    } else if sort == 2 {
        ordered_by(
            groups_by_key(keys, false),
            last_play_keys(t, groups_by_key(keys, false)),
            true,
        )
    } else {
        first_indices(keys)
    }
}

proof fn lemma_library_places(t: Tables, sort: i32)
    requires
        t.entries.len() <= usize::MAX,
    ensures
        one_of_each(path_keys(t.entries), library_places(t, sort)),
{
    let keys = path_keys(t.entries);
    law_first_rows(keys);
    law_groups_by_key(keys, false);
    lemma_first_indices(keys);
    if sort == 1 {
        let firsts = first_indices(keys);
        let back = firsts.reverse();
        assert forall|r: int| 0 <= r < keys.len() implies keys_at(
            keys,
            back,
        ).contains(#[trigger] keys[r]) by {
            assert(keys_at(keys, firsts).contains(keys[r]));
            let k = choose|k: int|
                0 <= k < firsts.len() && keys_at(keys, firsts)[k] == keys[r];
            assert(keys_at(keys, back)[firsts.len() - 1 - k] == keys[r]);
        }
    } else if sort == 2 {
        let groups = groups_by_key(keys, false);
        lemma_reordered(
            keys,
            groups,
            last_play_keys(t, groups),
            true,
        );
    }
}

/// The songs of a playlist stand by position, those with one position in the order of the table.
pub proof fn law_songs_stand_by_position(t: Tables, id: i64)
    requires
        t.entries.len() <= usize::MAX,
    ensures
        sorted_stably(
            entries_of(t, id),
            song_rows(t, id),
            |a: EntryData, b: EntryData| a.position < b.position,
        ),
        songs_of(t, id).len() == entries_of(t, id).len(),
        forall|k: int|
            0 <= k < songs_of(t, id).len() ==> #[trigger] songs_of(t, id)[k] == song_rows(
                t,
                id,
            )[k].path,
{
    let rows = entries_of(t, id);
    let keys = position_keys(rows);
    let before = |a: EntryData, b: EntryData| a.position < b.position;
    lemma_filter_places(t.entries, |e: EntryData| e.playlist_id == id);
    assert forall|i: int, j: int|
        0 <= i < rows.len() && 0 <= j < rows.len() implies #[trigger] before(rows[i], rows[j])
        == lex_less(keys[i], keys[j]) by {
        lemma_single(rows[i].position, rows[j].position);
    }
    lemma_ordered_is_sorted(rows, keys, false, before);
    lemma_order_contains(rows, keys, false);
}

/// The position behind which a song is added is that of a song, and no song has a larger one; where
/// there are no songs it is the place before the first.
pub proof fn law_top_position_is_largest(rows: Seq<EntryData>)
    ensures
        rows.len() == 0 ==> top_position(rows) == -1,
        rows.len() > 0 ==> exists|i: int|
            0 <= i < rows.len() && (#[trigger] rows[i]).position == top_position(rows),
        forall|i: int| 0 <= i < rows.len() ==> (#[trigger] rows[i]).position <= top_position(rows),
    decreases rows.len(),
{
    lemma_top_position(rows);
    if rows.len() == 1 {
        assert(rows[0].position == top_position(rows));
    } else if rows.len() > 1 {
        let shorter = rows.drop_last();
        law_top_position_is_largest(shorter);
        if rows.last().position > top_position(shorter) {
            assert(rows[rows.len() - 1].position == top_position(rows));
        } else {
            let i = choose|i: int|
                0 <= i < shorter.len() && (#[trigger] shorter[i]).position == top_position(shorter);
            assert(rows[i].position == top_position(rows));
        }
    }
}

/// A new song row gets the number that follows the largest; the first one gets 1.
pub proof fn law_next_rowid_is_free(t: Tables)
    requires
        t.wf(),
    ensures
        t.entries.len() == 0 ==> next_rowid(t.entries) == 1,
        t.entries.len() > 0 ==> next_rowid(t.entries) == t.entries.last().rowid + 1,
        forall|i: int|
            0 <= i < t.entries.len() ==> (#[trigger] t.entries[i]).rowid < next_rowid(t.entries),
{
    assert forall|i: int| 0 <= i < t.entries.len() implies (#[trigger] t.entries[i]).rowid
        < next_rowid(t.entries) by {
        if i < t.entries.len() - 1 {
            assert(t.entries[i].rowid < t.entries[t.entries.len() - 1].rowid);
        }
    }
}

/// A playlist that is played gets the time as its last access. No other access changes, and nothing
/// else does.
pub proof fn law_access_is_noted(t: Tables, id: i64, now: Seq<char>, other: i64)
    ensures
        ({
            let after = t.apply(ChangeData::SetAccessed { playlist_id: id, last_played: now });
            &&& after.accessed.contains_key(id)
            &&& after.accessed[id] == now
            &&& other != id ==> {
                &&& after.accessed.contains_key(other) == t.accessed.contains_key(other)
                &&& t.accessed.contains_key(other) ==> after.accessed[other] == t.accessed[other]
            }
            &&& after == (Tables { accessed: after.accessed, ..t })
        }),
{
}

/// A song that is added is one more row at the end of the table, a song that is deleted takes its
/// row away and no other, and a setting or a play that is noted touches neither playlists nor songs.
pub proof fn law_changes_are_local(t: Tables, entry: EntryData, rowid: i64, change: ChangeData)
    ensures
        t.apply(ChangeData::InsertEntry { entry }) == (Tables {
            entries: t.entries.push(entry),
            ..t
        }),
        lists_those(
            t.entries,
            t.apply(ChangeData::DeleteEntry { rowid }).entries,
            |e: EntryData| e.rowid != rowid,
        ),
        t.apply(ChangeData::DeleteEntry { rowid }) == (Tables {
            entries: t.apply(ChangeData::DeleteEntry { rowid }).entries,
            ..t
        }),
        change is SetSetting ==> t.apply(change) == (Tables {
            settings: t.apply(change).settings,
            ..t
        }),
        (change matches ChangeData::InsertPlay { play } ==> t.apply(change) == (Tables {
            history: t.history.push(play),
            history_seq: play.id as int,
            ..t
        })),
        change is RenamePlaylist || change is SetCover ==> t.apply(change) == (Tables {
            playlists: t.apply(change).playlists,
            ..t
        }),
        change is SetPositions ==> t.apply(change) == (Tables {
            entries: t.apply(change).entries,
            ..t
        }),
        (change matches ChangeData::InsertPlaylist { id, name } ==> t.apply(change) == (Tables {
            playlists: t.playlists.push(PlaylistData { id, name, cover: None }),
            playlist_seq: id as int,
            ..t
        })),
{
    let keep = |e: EntryData| e.rowid != rowid;
    lemma_filter_lists(t.entries, keep, keep);
}

/// Deleting a playlist takes its row, its songs and its last access away and nothing else: the other
/// playlists and their songs stay as they are, in their order, and the largest numbers ever given
/// stay. Where there is no such playlist nothing changes.
pub proof fn law_deletion_is_local(t: Tables, id: i64)
    ensures
        ({
            let after = t.apply(ChangeData::DeletePlaylist { id });
            &&& !t.has_playlist(id) ==> after == t
            &&& t.has_playlist(id) ==> {
                &&& lists_those(t.playlists, after.playlists, |p: PlaylistData| p.id != id)
                &&& lists_those(t.entries, after.entries, |e: EntryData| e.playlist_id != id)
                &&& after.accessed == t.accessed.remove(id)
            }
            &&& after == (Tables {
                playlists: after.playlists,
                entries: after.entries,
                accessed: after.accessed,
                ..t
            })
        }),
{
    let others = |p: PlaylistData| p.id != id;
    let not_own = |e: EntryData| e.playlist_id != id;
    lemma_filter_lists(t.playlists, others, others);
    lemma_filter_lists(t.entries, not_own, not_own);
}

/// There is a playlist with a number exactly where a row of the table has it.
pub proof fn law_playlist_is_there(t: Tables, id: i64)
    ensures
        t.has_playlist(id) <==> exists|i: int|
            0 <= i < t.playlists.len() && (#[trigger] t.playlists[i]).id == id,
{
}

/// Song rows that are the same but for their positions keep their number, their playlist and their
/// file, each at its place.
pub proof fn law_rows_keep_their_songs(before: Seq<EntryData>, after: Seq<EntryData>, i: int)
    requires
        same_but_positions(before, after),
        0 <= i < before.len(),
    ensures
        after.len() == before.len(),
        after[i].rowid == before[i].rowid,
        after[i].playlist_id == before[i].playlist_id,
        after[i].path == before[i].path,
{
    assert(after[i] == (EntryData { position: after[i].position, ..before[i] }));
}

/// A song is refused only where its number or the count of the songs would go beyond 64 bits.
pub proof fn law_songs_have_room(t: Tables)
    requires
        t.wf(),
    ensures
        entries_are_full(t.entries) <==> {
            ||| t.entries.len() > 0 && t.entries.last().rowid == 0x7fff_ffff_ffff_ffff
            ||| t.entries.len() == 0x7fff_ffff_ffff_ffff
        },
{
}

/// The views of texts are the texts one by one.
pub proof fn law_texts_one_by_one(texts: Seq<String>, i: int)
    ensures
        text_views(texts).len() == texts.len(),
        0 <= i < texts.len() ==> text_views(texts)[i] == texts[i]@,
{
}

} // verus!
