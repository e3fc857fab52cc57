//! What holds of the playback history and its statistics.

use vstd::prelude::*;

use crate::history::album_ranking;
use crate::history::artist_count;
use crate::history::artist_ranking;
use crate::history::latest_plays;
use crate::history::latest_songs;
use crate::history::play_keys;
use crate::history::play_name;
use crate::history::play_song_keys;
use crate::history::plays_of_files;
use crate::history::plays_on;
use crate::history::plays_on_albums;
use crate::history::ranking;
use crate::history::track_ranking;
use crate::history::Grouping;
use crate::history::StatData;
use crate::listing::all_paths;
use crate::listing::last_play;
use crate::listing::last_play_keys;
use crate::listing::path_keys;
use crate::order::lemma_lex_total;
use crate::order::lex_less;
use crate::order::limited;
use crate::order::ranks_before;
use crate::order::stable_order;
use crate::order_laws::law_largest_comes_first;
use crate::order_laws::lemma_order_contains;
use crate::relations::agree;
use crate::relations::counts_those;
use crate::relations::cut;
use crate::relations::law_keys_compare;
use crate::relations::law_limit_cuts;
use crate::relations::law_texts_are_ordered;
use crate::relations::law_texts_compare;
use crate::relations::lemma_filter_lists;
use crate::relations::lemma_filter_picks;
use crate::relations::lists_those;
use crate::relations::precedes;
use crate::tables::lemma_filter_filter;
use crate::tables::lemma_filter_places;
use crate::tables::lemma_filter_push;
use crate::tables::ChangeData;
use crate::tables::PlayData;
use crate::tables::Tables;
use crate::tally::count_keys;
use crate::tally::count_of;
use crate::tally::first_indices;
use crate::tally::groups_by_key;
use crate::tally::groups_by_size;
use crate::tally::keys_at;
use crate::tally::lemma_first_indices;
use crate::tally::lemma_text_key_injective;
use crate::tally::pair_key;
use crate::tally::text_key;
use crate::tally_laws::counts_of;
use crate::tally_laws::law_count_is_filter;
use crate::tally_laws::law_first_rows;
use crate::tally_laws::law_groups_by_key;
use crate::tally_laws::law_groups_by_size;
use crate::tally_laws::law_sizes_add_up;
use crate::tally_laws::lemma_single;
use crate::tally_laws::sum_of;

verus! {

/// A play that is noted is the latest one, is counted once in total and once on its day, and leaves
/// the playlists, their songs and the settings alone.
pub proof fn law_play_is_noted(t: Tables, play: PlayData, limit: int, day: Seq<char>)
    requires
        0 <= limit,
    ensures
        ({
            let after = t.apply(ChangeData::InsertPlay { play });
            &&& latest_plays(after, limit + 1) == seq![play] + latest_plays(t, limit)
            &&& after.history.len() == t.history.len() + 1
            &&& plays_on(after.history, day) == plays_on(t.history, day) + (if play.day == Some(
                day,
            ) {
                1int
            } else {
                0int
            })
            &&& after.playlists == t.playlists
            &&& after.entries == t.entries
            &&& after.accessed == t.accessed
            &&& after.settings == t.settings
        }),
{
    let after = t.apply(ChangeData::InsertPlay { play });
    assert(after.history.reverse() =~= seq![play] + t.history.reverse());
    assert(latest_plays(after, limit + 1) =~= seq![play] + latest_plays(t, limit));
    lemma_filter_push(t.history, play, |p: PlayData| p.day == Some(day));
}

/// Of a list that descends, `limit` rows are kept, or as many as there are.
proof fn lemma_limited<T>(rows: Seq<T>, limit: int)
    ensures
        limited(rows, limit).len() <= rows.len(),
        0 <= limit ==> limited(rows, limit).len() <= limit,
        limit < 0 || rows.len() <= limit ==> limited(rows, limit) == rows,
        forall|k: int|
            0 <= k < limited(rows, limit).len() ==> #[trigger] limited(rows, limit)[k] == rows[k],
{
}

/// The ranking of artists descends, lists nobody twice, and gives each the number of their plays.
/// It has at most `limit` rows; without a limit it has a row for every artist that was played.
pub proof fn law_artists_are_ranked(t: Tables, limit: int)
    requires
        t.wf(),
        t.history.len() <= usize::MAX,
    ensures
        0 <= limit ==> artist_ranking(t, limit).len() <= limit,
        limit < 0 ==> artist_ranking(t, limit).len() == artist_count(t),
        limit < 0 ==> forall|k: int|
            0 <= k < t.history.len() ==> exists|i: int|
                0 <= i < artist_ranking(t, limit).len() && (
                #[trigger] artist_ranking(t, limit)[i]).name == (#[trigger] t.history[k]).artist,
        forall|i: int, j: int|
            0 <= i < j < artist_ranking(t, limit).len() ==> {
                &&& (#[trigger] artist_ranking(t, limit)[i]).count >= (
                #[trigger] artist_ranking(t, limit)[j]).count
                &&& artist_ranking(t, limit)[i].name != artist_ranking(t, limit)[j].name
            },
        forall|i: int|
            0 <= i < artist_ranking(t, limit).len() ==> {
                let row = #[trigger] artist_ranking(t, limit)[i];
                &&& row.count > 0
                &&& row.count == t.history.filter(|p: PlayData| p.artist == row.name).len()
            },
{
    let keys = play_keys(t.history, Grouping::Artist);
    let groups = groups_by_size(keys, true);
    let ranking = artist_ranking(t, limit);
    law_groups_by_size(keys, true);
    lemma_limited(groups, limit);
    assert forall|i: int| 0 <= i < ranking.len() implies {
        let row = #[trigger] ranking[i];
        &&& row.count > 0
        &&& row.count == t.history.filter(|p: PlayData| p.artist == row.name).len()
    } by {
        let g = limited(groups, limit)[i];
        assert(g == groups[i]);
        assert(g < keys.len());
        let name = ranking[i].name;
        let keep = |p: PlayData| p.artist == name;
        assert forall|k: int| 0 <= k < t.history.len() implies (keep(#[trigger] t.history[k])
            <==> keys[k] == keys[g as int]) by {
            if keys[k] == keys[g as int] {
                lemma_text_key_injective(t.history[k].artist, t.history[g as int].artist);
            }
        }
        law_count_is_filter(t.history, keys, keys[g as int], keep);
    }
    assert forall|i: int, j: int| 0 <= i < j < ranking.len() implies {
        &&& (#[trigger] ranking[i]).count >= (#[trigger] ranking[j]).count
        &&& ranking[i].name != ranking[j].name
    } by {
        assert(limited(groups, limit)[i] == groups[i]);
        assert(limited(groups, limit)[j] == groups[j]);
        assert(keys[groups[i] as int] != keys[groups[j] as int]);
        assert(groups[i] < keys.len() && groups[j] < keys.len());
    }
    if limit < 0 {
        assert forall|k: int| 0 <= k < t.history.len() implies exists|i: int|
            0 <= i < ranking.len() && (#[trigger] ranking[i]).name == (
            #[trigger] t.history[k]).artist by {
            assert(keys_at(keys, groups).contains(keys[k]));
            let i = choose|i: int| 0 <= i < groups.len() && keys_at(keys, groups)[i] == keys[k];
            assert(groups[i] < keys.len());
            lemma_text_key_injective(t.history[groups[i] as int].artist, t.history[k].artist);
            assert(ranking[i].name == t.history[k].artist);
        }
    }
}

/// The ranking of albums descends, lists none twice, leaves plays without an album out, and gives
/// each the number of its plays. It has at most `limit` rows.
pub proof fn law_albums_are_ranked(t: Tables, limit: int)
    requires
        t.wf(),
        t.history.len() <= usize::MAX,
    ensures
        0 <= limit ==> album_ranking(t, limit).len() <= limit,
        forall|i: int, j: int|
            0 <= i < j < album_ranking(t, limit).len() ==> {
                &&& (#[trigger] album_ranking(t, limit)[i]).count >= (
                #[trigger] album_ranking(t, limit)[j]).count
                &&& album_ranking(t, limit)[i].name != album_ranking(t, limit)[j].name
            },
        forall|i: int|
            0 <= i < album_ranking(t, limit).len() ==> {
                let row = #[trigger] album_ranking(t, limit)[i];
                &&& row.name.len() > 0
                &&& row.count > 0
                &&& row.count == t.history.filter(|p: PlayData| p.album == row.name).len()
            },
{
    let rows = plays_on_albums(t.history);
    let keys = play_keys(rows, Grouping::Album);
    let groups = groups_by_size(keys, true);
    let ranking = album_ranking(t, limit);
    let on_album = |p: PlayData| p.album.len() > 0;
    lemma_filter_places(t.history, on_album);
    law_groups_by_size(keys, true);
    lemma_limited(groups, limit);
    assert forall|i: int| 0 <= i < ranking.len() implies {
        let row = #[trigger] ranking[i];
        &&& row.name.len() > 0
        &&& row.count > 0
        &&& row.count == t.history.filter(|p: PlayData| p.album == row.name).len()
    } by {
        let g = limited(groups, limit)[i];
        assert(g == groups[i]);
        assert(g < keys.len());
        let name = ranking[i].name;
        assert(on_album(rows[g as int]));
        let keep = |p: PlayData| p.album == name;
        assert forall|k: int| 0 <= k < rows.len() implies (keep(#[trigger] rows[k]) <==> keys[k]
            == keys[g as int]) by {
            if keys[k] == keys[g as int] {
                lemma_text_key_injective(rows[k].album, rows[g as int].album);
            }
        }
        law_count_is_filter(rows, keys, keys[g as int], keep);
        lemma_filter_filter(t.history, on_album, keep);
    }
    assert forall|i: int, j: int| 0 <= i < j < ranking.len() implies {
        &&& (#[trigger] ranking[i]).count >= (#[trigger] ranking[j]).count
        &&& ranking[i].name != ranking[j].name
    } by {
        assert(limited(groups, limit)[i] == groups[i]);
        assert(limited(groups, limit)[j] == groups[j]);
        assert(keys[groups[i] as int] != keys[groups[j] as int]);
        assert(groups[i] < keys.len() && groups[j] < keys.len());
    }
}

/// The counts of a ranking.
pub open spec fn stat_counts(stats: Seq<StatData>) -> Seq<int> {
    stats.map_values(|s: StatData| s.count)
}

proof fn lemma_ranking_adds_up(rows: Seq<PlayData>, by: Grouping, descending: bool)
    requires
        rows.len() <= usize::MAX,
        rows.len() <= i64::MAX,
    ensures
        sum_of(stat_counts(ranking(rows, by, descending, -1))) == rows.len(),
{
    let keys = play_keys(rows, by);
    let groups = groups_by_size(keys, descending);
    law_groups_by_size(keys, descending);
    let listed = keys_at(keys, groups);
    assert(listed.no_duplicates()) by {
        assert forall|i: int, j: int|
            0 <= i < listed.len() && 0 <= j < listed.len() && i != j implies listed[i]
            != listed[j] by {
            assert(keys[groups[i] as int] != keys[groups[j] as int]);
        }
    }
    law_sizes_add_up(keys, listed);
    assert(stat_counts(ranking(rows, by, descending, -1)) =~= counts_of(keys, listed));
}

/// Without a limit, the counts of the artists add up to the number of plays, and so do those of the
/// tracks; those of the albums add up to the number of plays that have an album.
pub proof fn law_rankings_add_up(t: Tables)
    requires
        t.wf(),
        t.history.len() <= usize::MAX,
    ensures
        sum_of(stat_counts(artist_ranking(t, -1))) == t.history.len(),
        sum_of(stat_counts(track_ranking(t, -1))) == t.history.len(),
        sum_of(stat_counts(album_ranking(t, -1))) == plays_on_albums(t.history).len(),
{
    lemma_filter_places(t.history, |p: PlayData| p.album.len() > 0);
    lemma_ranking_adds_up(t.history, Grouping::Artist, true);
    lemma_ranking_adds_up(t.history, Grouping::Track, false);
    lemma_ranking_adds_up(plays_on_albums(t.history), Grouping::Album, true);
}

/// Two pairs of texts with the same key are the same pair.
pub proof fn lemma_pair_key_injective(a: Seq<char>, b: Seq<char>, c: Seq<char>, d: Seq<char>)
    requires
        pair_key(a, b) == pair_key(c, d),
    ensures
        a == c,
        b == d,
{
    let x = pair_key(a, b);
    let y = pair_key(c, d);
    assert(x[a.len() as int] == -1);
    assert(y[c.len() as int] == -1);
    if a.len() < c.len() {
        lemma_char_not_negative(c[a.len() as int]);
        assert(y[a.len() as int] == c[a.len() as int] as i64);
    } else if c.len() < a.len() {
        lemma_char_not_negative(a[c.len() as int]);
        assert(x[c.len() as int] == a[c.len() as int] as i64);
    }
    assert(text_key(a) =~= x.take(a.len() as int));
    assert(text_key(c) =~= y.take(c.len() as int));
    assert(text_key(b) =~= x.skip(a.len() as int + 1));
    assert(text_key(d) =~= y.skip(c.len() as int + 1));
    lemma_text_key_injective(a, c);
    lemma_text_key_injective(b, d);
}

proof fn lemma_char_not_negative(c: char)
    ensures
        c as i64 >= 0,
{
}

/// The ranking of tracks descends and gives each track the number of its plays. It has at most
/// `limit` rows.
pub proof fn law_tracks_are_ranked(t: Tables, limit: int)
    requires
        t.wf(),
        t.history.len() <= usize::MAX,
    ensures
        0 <= limit ==> track_ranking(t, limit).len() <= limit,
        forall|i: int, j: int|
            0 <= i < j < track_ranking(t, limit).len() ==> (
            #[trigger] track_ranking(t, limit)[i]).count >= (
            #[trigger] track_ranking(t, limit)[j]).count,
        forall|i: int|
            0 <= i < track_ranking(t, limit).len() ==> {
                let row = #[trigger] track_ranking(t, limit)[i];
                exists|k: int|
                    {
                        &&& 0 <= k < t.history.len()
                        &&& row.name == (#[trigger] t.history[k]).title + " — "@
                            + t.history[k].artist
                        &&& row.count == t.history.filter(
                            |p: PlayData|
                                p.title == t.history[k].title && p.artist == t.history[k].artist,
                        ).len()
                    }
            },
{
    let keys = play_keys(t.history, Grouping::Track);
    let groups = groups_by_size(keys, false);
    let ranking = track_ranking(t, limit);
    law_groups_by_size(keys, false);
    lemma_limited(groups, limit);
    assert forall|i: int| 0 <= i < ranking.len() implies {
        let row = #[trigger] ranking[i];
        exists|k: int|
            {
                &&& 0 <= k < t.history.len()
                &&& row.name == (#[trigger] t.history[k]).title + " — "@ + t.history[k].artist
                &&& row.count == t.history.filter(
                    |p: PlayData|
                        p.title == t.history[k].title && p.artist == t.history[k].artist,
                ).len()
            }
    } by {
        let g = limited(groups, limit)[i] as int;
        assert(g == groups[i]);
        assert(g < keys.len());
        let keep = |p: PlayData|
            p.title == t.history[g].title && p.artist == t.history[g].artist;
        assert forall|k: int| 0 <= k < t.history.len() implies (keep(#[trigger] t.history[k])
            <==> keys[k] == keys[g]) by {
            if keys[k] == keys[g] {
                lemma_pair_key_injective(
                    t.history[k].title,
                    t.history[k].artist,
                    t.history[g].title,
                    t.history[g].artist,
                );
            }
        }
        law_count_is_filter(t.history, keys, keys[g], keep);
        assert(ranking[i].name == t.history[g].title + " — "@ + t.history[g].artist);
    }
    assert forall|i: int, j: int| 0 <= i < j < ranking.len() implies (
    #[trigger] ranking[i]).count >= (#[trigger] ranking[j]).count by {
        assert(limited(groups, limit)[i] == groups[i]);
        assert(limited(groups, limit)[j] == groups[j]);
    }
}

/// Among the songs played last none comes twice, and each comes from a play of a known file.
pub proof fn law_latest_songs_are_distinct(t: Tables, limit: int, i: int, j: int)
    requires
        t.history.len() <= usize::MAX,
        0 <= i < j < latest_songs(t, limit).len(),
    ensures
        ({
            let a = latest_songs(t, limit)[i];
            let b = latest_songs(t, limit)[j];
            &&& a.path is Some
            &&& b.path is Some
            &&& (a.title != b.title || a.artist != b.artist || a.path != b.path)
        }),
{
    let known = |p: PlayData| p.path is Some;
    lemma_filter_places(t.history, known);
    let rows = plays_of_files(t.history).reverse();
    let keys = play_song_keys(rows);
    let firsts = first_indices(keys);
    law_first_rows(keys);
    lemma_limited(firsts, limit);
    let kept = limited(firsts, limit);
    assert(kept[i] == firsts[i] && kept[j] == firsts[j]);
    assert(firsts[i] < keys.len() && firsts[j] < keys.len());
    assert(keys[firsts[i] as int] != keys[firsts[j] as int]);
    assert(known(plays_of_files(t.history)[rows.len() - 1 - firsts[i]]));
    assert(known(plays_of_files(t.history)[rows.len() - 1 - firsts[j]]));
}

/// A file that was just played comes first among the songs played last.
pub proof fn law_played_song_comes_first(t: Tables, play: PlayData, limit: int)
    requires
        t.history.len() < usize::MAX,
        play.path is Some,
        limit != 0,
    ensures
        latest_songs(t.apply(ChangeData::InsertPlay { play }), limit).len() > 0,
        latest_songs(t.apply(ChangeData::InsertPlay { play }), limit)[0] == play,
{
    let after = t.apply(ChangeData::InsertPlay { play });
    let known = |p: PlayData| p.path is Some;
    lemma_filter_push(t.history, play, known);
    lemma_filter_places(after.history, known);
    let rows = plays_of_files(after.history).reverse();
    assert(rows[0] == play);
    let keys = play_song_keys(rows);
    lemma_first_is_zero(keys);
    lemma_limited(first_indices(keys), limit);
}

proof fn lemma_first_is_zero(keys: Seq<Seq<i64>>)
    requires
        0 < keys.len() <= usize::MAX,
    ensures
        first_indices(keys).len() > 0,
        first_indices(keys)[0] == 0,
    decreases keys.len(),
{
    if keys.len() > 1 {
        lemma_first_is_zero(keys.drop_last());
    } else {
        assert(first_indices(keys.drop_last()) =~= Seq::<usize>::empty());
    }
}

/// No play is numbered above the largest number.
proof fn lemma_last_play(history: Seq<PlayData>, path: Seq<char>, most: int)
    requires
        forall|i: int| 0 <= i < history.len() ==> (#[trigger] history[i]).id <= most,
    ensures
        last_play(history, path) matches Some(id) ==> id <= most,
    decreases history.len(),
{
    if history.len() > 0 {
        let shorter = history.drop_last();
        assert forall|i: int| 0 <= i < shorter.len() implies (#[trigger] shorter[i]).id <= most by {
            assert(shorter[i] == history[i]);
        }
        lemma_last_play(shorter, path, most);
        assert(history[history.len() - 1].id <= most);
    }
}

/// A song of the library that was just played comes first in the sort mode by last play.
pub proof fn law_played_file_leads_library(t: Tables, play: PlayData, i: int)
    requires
        t.wf(),
        t.accepts(ChangeData::InsertPlay { play }),
        0 <= i < t.entries.len() <= usize::MAX,
        play.path == Some(t.entries[i].path),
    ensures
        all_paths(t.apply(ChangeData::InsertPlay { play }), 2)[0] == t.entries[i].path,
{
    let after = t.apply(ChangeData::InsertPlay { play });
    let path = t.entries[i].path;
    let keys = path_keys(after.entries);
    let groups = groups_by_key(keys, false);
    law_groups_by_key(keys, false);
    lemma_first_indices(keys);
    let by = last_play_keys(after, groups);
    assert(keys_at(keys, groups).contains(keys[i]));
    let at = choose|k: int| 0 <= k < groups.len() && keys_at(keys, groups)[k] == keys[i];
    assert(groups[at] < keys.len());
    lemma_text_key_injective(after.entries[groups[at] as int].path, path);
    assert(after.history.last() == play);
    assert(last_play(after.history, path) == Some(play.id));
    assert(by[at] =~= seq![play.id]);
    assert forall|k: int| 0 <= k < by.len() && k != at implies lex_less(
        #[trigger] by[k],
        by[at],
    ) by {
        assert(keys[groups[k] as int] != keys[groups[at] as int]);
        assert(groups[k] < keys.len());
        let other = after.entries[groups[k] as int].path;
        assert(other != path);
        assert(after.history.drop_last() =~= t.history);
        lemma_last_play(t.history, other, t.history_seq);
        assert(last_play(after.history, other) == last_play(t.history, other));
        match last_play(t.history, other) {
            Some(id) => {
                assert(by[k] =~= seq![id]);
                lemma_single(id, play.id);
            },
            None => {
                assert(by[k] =~= Seq::<i64>::empty());
            },
        }
    }
    law_largest_comes_first(groups, by, at);
    lemma_order_contains(groups, by, true);
}

/// The plays on albums are those whose album has a name, the plays of files are those with a path,
/// and the plays on a day are those of that day; none is left out and none is counted twice.
pub proof fn law_plays_are_picked(rows: Seq<PlayData>, day: Seq<char>)
    ensures
        lists_those(rows, plays_on_albums(rows), |p: PlayData| p.album.len() > 0),
        lists_those(rows, plays_of_files(rows), |p: PlayData| p.path is Some),
        counts_those(rows, |p: PlayData| p.day == Some(day), plays_on(rows, day) as int),
{
    let on_album = |p: PlayData| p.album.len() > 0;
    let of_file = |p: PlayData| p.path is Some;
    let on_day = |p: PlayData| p.day == Some(day);
    lemma_filter_lists(rows, on_album, on_album);
    lemma_filter_lists(rows, of_file, of_file);
    lemma_filter_lists(rows, on_day, on_day);
    assert(lists_those(rows, rows.filter(on_day), on_day));
}

/// The latest plays are the history read backwards, up to the limit.
pub proof fn law_latest_plays_run_backwards(t: Tables, limit: int, k: int)
    ensures
        latest_plays(t, -1).len() == t.history.len(),
        0 <= k < t.history.len() ==> latest_plays(t, -1)[k] == t.history[t.history.len() - 1 - k],
        cut(latest_plays(t, -1), latest_plays(t, limit), limit),
{
    law_limit_cuts(t.history.reverse(), limit);
}

/// A limit keeps the first rows of a ranking, and of the songs played last, as many as there are up
/// to the limit.
pub proof fn law_limits_cut_the_statistics(t: Tables, limit: int)
    ensures
        cut(artist_ranking(t, -1), artist_ranking(t, limit), limit),
        cut(album_ranking(t, -1), album_ranking(t, limit), limit),
        cut(track_ranking(t, -1), track_ranking(t, limit), limit),
        cut(latest_songs(t, -1), latest_songs(t, limit), limit),
{
    law_limit_cuts(groups_by_size(play_keys(t.history, Grouping::Artist), true), limit);
    law_limit_cuts(
        groups_by_size(play_keys(plays_on_albums(t.history), Grouping::Album), true),
        limit,
    );
    law_limit_cuts(groups_by_size(play_keys(t.history, Grouping::Track), false), limit);
    law_limit_cuts(first_indices(play_song_keys(plays_of_files(t.history).reverse())), limit);
}

/// The plays that stand for two rows of a ranking, and how they compare.
proof fn lemma_ranked_pair(
    rows: Seq<PlayData>,
    by: Grouping,
    descending: bool,
    i: int,
    j: int,
) -> (pair: (int, int))
    requires
        rows.len() <= usize::MAX,
        rows.len() <= i64::MAX,
        0 <= i < j < ranking(rows, by, descending, -1).len(),
    ensures
        ({
            let keys = play_keys(rows, by);
            let a = ranking(rows, by, descending, -1)[i];
            let b = ranking(rows, by, descending, -1)[j];
            let x = keys[pair.0];
            let y = keys[pair.1];
            &&& 0 <= pair.0 < rows.len()
            &&& 0 <= pair.1 < rows.len()
            &&& a.name == play_name(rows[pair.0], by)
            &&& b.name == play_name(rows[pair.1], by)
            &&& x != y
            &&& a.count == b.count ==> if descending {
                lex_less(y, x)
            } else {
                lex_less(x, y)
            }
        }),
{
    let keys = play_keys(rows, by);
    let firsts = first_indices(keys);
    let fk = keys_at(keys, firsts);
    let groups = groups_by_key(keys, descending);
    let sizes = count_keys(keys, groups);
    lemma_first_indices(keys);
    law_first_rows(keys);
    law_groups_by_key(keys, descending);
    law_groups_by_size(keys, descending);
    lemma_order_contains(firsts, fk, descending);
    lemma_order_contains(groups, sizes, true);
    let inner = stable_order(fk, descending);
    let order = stable_order(sizes, true);
    let out = groups_by_size(keys, descending);
    let u = order[i];
    let v = order[j];
    assert(u < groups.len() && v < groups.len());
    assert(ranks_before(sizes, true, order[i], order[j]));
    let g = out[i];
    let h = out[j];
    assert(g == groups[u as int] && h == groups[v as int]);
    assert(g < keys.len() && h < keys.len());
    assert(keys[out[i] as int] != keys[out[j] as int]);
    if count_of(keys, keys[g as int]) == count_of(keys, keys[h as int]) {
        assert(sizes[u as int] == sizes[v as int]);
        assert(u < v);
        assert(inner[u as int] < firsts.len() && inner[v as int] < firsts.len());
        assert(ranks_before(fk, descending, inner[u as int], inner[v as int]));
        assert(g == firsts[inner[u as int] as int] && h == firsts[inner[v as int] as int]);
        assert(fk[inner[u as int] as int] == keys[g as int]);
        assert(fk[inner[v as int] as int] == keys[h as int]);
    }
    (g as int, h as int)
}

/// Of two artists that were played as often, the one whose name comes later in a dictionary is
/// ranked first, and so it is with albums.
pub proof fn law_equal_counts_by_name(t: Tables, i: int, j: int)
    requires
        t.wf(),
        t.history.len() <= usize::MAX,
        0 <= i < j,
    ensures
        j < artist_ranking(t, -1).len() && artist_ranking(t, -1)[i].count == artist_ranking(
            t,
            -1,
        )[j].count ==> precedes(artist_ranking(t, -1)[j].name, artist_ranking(t, -1)[i].name),
        j < album_ranking(t, -1).len() && album_ranking(t, -1)[i].count == album_ranking(
            t,
            -1,
        )[j].count ==> precedes(album_ranking(t, -1)[j].name, album_ranking(t, -1)[i].name),
{
    if j < artist_ranking(t, -1).len() {
        let (g, h) = lemma_ranked_pair(t.history, Grouping::Artist, true, i, j);
        law_texts_compare(t.history[h].artist, t.history[g].artist);
    }
    if j < album_ranking(t, -1).len() {
        let rows = plays_on_albums(t.history);
        lemma_filter_places(t.history, |p: PlayData| p.album.len() > 0);
        let (g, h) = lemma_ranked_pair(rows, Grouping::Album, true, i, j);
        law_texts_compare(rows[h].album, rows[g].album);
    }
}

/// The keys of two pairs of texts compare by their first texts, and by their second ones where the
/// first agree.
pub proof fn law_pairs_compare(a: Seq<char>, b: Seq<char>, c: Seq<char>, d: Seq<char>)
    ensures
        lex_less(pair_key(a, b), pair_key(c, d)) <==> precedes(a, c) || (a == c && precedes(b, d)),
{
    if a == c {
        lemma_same_front(text_key(a).push((-1) as i64), text_key(b), text_key(d));
        law_texts_compare(b, d);
        law_texts_are_ordered(a, a);
    } else {
        law_texts_are_ordered(a, c);
        lemma_lex_total(pair_key(a, b), pair_key(c, d));
        if precedes(a, c) {
            lemma_front_decides(a, b, c, d);
        } else {
            lemma_front_decides(c, d, a, b);
        }
    }
}

proof fn lemma_same_front(front: Seq<i64>, x: Seq<i64>, y: Seq<i64>)
    ensures
        lex_less(front + x, front + y) <==> lex_less(x, y),
    decreases front.len(),
{
    if front.len() == 0 {
        assert(front + x =~= x);
        assert(front + y =~= y);
    } else {
        assert((front + x).drop_first() =~= front.drop_first() + x);
        assert((front + y).drop_first() =~= front.drop_first() + y);
        lemma_same_front(front.drop_first(), x, y);
    }
}

proof fn lemma_front_decides(a: Seq<char>, b: Seq<char>, c: Seq<char>, d: Seq<char>)
    requires
        precedes(a, c),
    ensures
        lex_less(pair_key(a, b), pair_key(c, d)),
{
    let x = pair_key(a, b);
    let y = pair_key(c, d);
    let k = choose|k: int| #[trigger]
        agree(a, c, k) && k < c.len() && (k == a.len() || a[k] < c[k]);
    assert forall|j: int| 0 <= j < k implies #[trigger] x[j] == y[j] by {
        assert(a[j] == c[j]);
    }
    lemma_char_not_negative(c[k]);
    assert(y[k] == c[k] as i64);
    if k == a.len() {
        assert(x[k] == -1);
    } else {
        lemma_chars_as_numbers(a[k], c[k]);
        assert(x[k] == a[k] as i64);
    }
    assert(agree(x, y, k));
    law_keys_compare(x, y);
}

proof fn lemma_chars_as_numbers(a: char, b: char)
    requires
        a < b,
    ensures
        (a as i64) < b as i64,
{
}

/// Two rows of the ranking of tracks stand for two different tracks. Of two that were played as
/// often, the one whose title comes first in a dictionary is ranked first, or whose artist does
/// where the titles agree.
pub proof fn law_equal_counts_by_title(t: Tables, i: int, j: int)
    requires
        t.wf(),
        t.history.len() <= usize::MAX,
        0 <= i < j < track_ranking(t, -1).len(),
    ensures
        exists|g: int, h: int|
            {
                let a = #[trigger] t.history[g];
                let b = #[trigger] t.history[h];
                &&& 0 <= g < t.history.len()
                &&& 0 <= h < t.history.len()
                &&& track_ranking(t, -1)[i].name == a.title + " — "@ + a.artist
                &&& track_ranking(t, -1)[j].name == b.title + " — "@ + b.artist
                &&& a.title != b.title || a.artist != b.artist
                &&& track_ranking(t, -1)[i].count == track_ranking(t, -1)[j].count ==> {
                    ||| precedes(a.title, b.title)
                    ||| a.title == b.title && precedes(a.artist, b.artist)
                }
            },
{
    let (g, h) = lemma_ranked_pair(t.history, Grouping::Track, false, i, j);
    let a = t.history[g];
    let b = t.history[h];
    law_pairs_compare(a.title, a.artist, b.title, b.artist);
}

/// Without a limit, every album that was played is ranked, and every track.
pub proof fn law_rankings_are_complete(t: Tables, k: int)
    requires
        t.wf(),
        t.history.len() <= usize::MAX,
        0 <= k < t.history.len(),
    ensures
        t.history[k].album.len() > 0 ==> exists|i: int|
            0 <= i < album_ranking(t, -1).len() && (#[trigger] album_ranking(t, -1)[i]).name
                == t.history[k].album,
        exists|i: int|
            0 <= i < track_ranking(t, -1).len() && (#[trigger] track_ranking(t, -1)[i]).name
                == t.history[k].title + " — "@ + t.history[k].artist,
{
    let keys = play_keys(t.history, Grouping::Track);
    let groups = groups_by_size(keys, false);
    law_groups_by_size(keys, false);
    assert(keys_at(keys, groups).contains(keys[k]));
    let i = choose|i: int| 0 <= i < groups.len() && keys_at(keys, groups)[i] == keys[k];
    assert(groups[i] < keys.len());
    let p = t.history[groups[i] as int];
    lemma_pair_key_injective(p.title, p.artist, t.history[k].title, t.history[k].artist);
    assert(track_ranking(t, -1)[i].name == t.history[k].title + " — "@ + t.history[k].artist);
    if t.history[k].album.len() > 0 {
        let on_album = |p: PlayData| p.album.len() > 0;
        let rows = plays_on_albums(t.history);
        let places = lemma_filter_picks(t.history, on_album);
        lemma_filter_places(t.history, on_album);
        assert(on_album(t.history[k]));
        assert(places.contains(k));
        let m = choose|m: int| 0 <= m < places.len() && places[m] == k;
        assert(rows[m] == t.history[k]);
        let album_keys = play_keys(rows, Grouping::Album);
        let albums = groups_by_size(album_keys, true);
        law_groups_by_size(album_keys, true);
        assert(keys_at(album_keys, albums).contains(album_keys[m]));
        let i = choose|i: int|
            0 <= i < albums.len() && keys_at(album_keys, albums)[i] == album_keys[m];
        assert(albums[i] < album_keys.len());
        lemma_text_key_injective(rows[albums[i] as int].album, rows[m].album);
        assert(album_ranking(t, -1)[i].name == t.history[k].album);
    }
}

/// Two plays are of one song: title, artist and file agree.
pub open spec fn same_song(a: PlayData, b: PlayData) -> bool {
    a.title == b.title && a.artist == b.artist && a.path == b.path
}

/// `out` are the last plays of the songs with a file, at these places, the latest first.
pub open spec fn lists_last_plays(
    history: Seq<PlayData>,
    out: Seq<PlayData>,
    places: Seq<int>,
) -> bool {
    &&& places.len() == out.len()
    &&& forall|k: int|
        0 <= k < out.len() ==> {
            &&& 0 <= #[trigger] places[k] < history.len()
            &&& out[k] == history[places[k]]
            &&& out[k].path is Some
            &&& forall|q: int|
                places[k] < q < history.len() ==> !same_song(#[trigger] history[q], out[k])
        }
    &&& forall|i: int, j: int|
        0 <= i < j < places.len() ==> #[trigger] places[i] > #[trigger] places[j]
    &&& forall|q: int|
        0 <= q < history.len() && (#[trigger] history[q]).path is Some ==> exists|k: int|
            0 <= k < out.len() && same_song(#[trigger] out[k], history[q])
}

proof fn lemma_song_key_injective(a: PlayData, b: PlayData)
    requires
        a.path is Some,
        b.path is Some,
        pair_key(a.title, a.artist).push((-1) as i64) + text_key(a.path->0) == pair_key(
            b.title,
            b.artist,
        ).push((-1) as i64) + text_key(b.path->0),
    ensures
        same_song(a, b),
{
    let x = pair_key(a.title, a.artist).push((-1) as i64) + text_key(a.path->0);
    let y = pair_key(b.title, b.artist).push((-1) as i64) + text_key(b.path->0);
    let m = a.title.len() as int;
    let n = b.title.len() as int;
    assert(x[m] == -1 && y[n] == -1);
    if m < n {
        lemma_char_not_negative(b.title[m]);
        assert(y[m] == b.title[m] as i64);
    } else if n < m {
        lemma_char_not_negative(a.title[n]);
        assert(x[n] == a.title[n] as i64);
    }
    let p = m + 1 + a.artist.len();
    let q = n + 1 + b.artist.len();
    assert(x[p] == -1 && y[q] == -1);
    if p < q {
        lemma_char_not_negative(b.artist[p - n - 1]);
        assert(y[p] == b.artist[p - n - 1] as i64);
    } else if q < p {
        lemma_char_not_negative(a.artist[q - m - 1]);
        assert(x[q] == a.artist[q - m - 1] as i64);
    }
    assert(text_key(a.title) =~= x.take(m));
    assert(text_key(b.title) =~= y.take(n));
    assert(text_key(a.artist) =~= x.subrange(m + 1, p));
    assert(text_key(b.artist) =~= y.subrange(n + 1, q));
    assert(text_key(a.path->0) =~= x.skip(p + 1));
    assert(text_key(b.path->0) =~= y.skip(q + 1));
    lemma_text_key_injective(a.title, b.title);
    lemma_text_key_injective(a.artist, b.artist);
    lemma_text_key_injective(a.path->0, b.path->0);
}

/// The plays of files read backwards, and where they stand in the history.
spec fn backwards(history: Seq<PlayData>, rows: Seq<PlayData>, at: Seq<int>) -> bool {
    &&& at.len() == rows.len()
    &&& forall|r: int|
        0 <= r < rows.len() ==> {
            &&& 0 <= #[trigger] at[r] < history.len()
            &&& rows[r] == history[at[r]]
            &&& rows[r].path is Some
        }
    &&& forall|r: int, e: int| 0 <= r < e < at.len() ==> #[trigger] at[r] > #[trigger] at[e]
    &&& forall|q: int|
        0 <= q < history.len() && (#[trigger] history[q]).path is Some ==> at.contains(q)
}

proof fn lemma_backwards(history: Seq<PlayData>) -> (at: Seq<int>)
    ensures
        backwards(history, plays_of_files(history).reverse(), at),
{
    let known = |p: PlayData| p.path is Some;
    let forth = lemma_filter_picks(history, known);
    let rows = plays_of_files(history).reverse();
    let n = rows.len() as int;
    let at = forth.reverse();
    assert forall|r: int| 0 <= r < n implies {
        &&& 0 <= #[trigger] at[r] < history.len()
        &&& rows[r] == history[at[r]]
        &&& rows[r].path is Some
    } by {
        assert(at[r] == forth[n - 1 - r]);
        assert(known(history[forth[n - 1 - r]]));
    }
    assert forall|r: int, e: int| 0 <= r < e < at.len() implies #[trigger] at[r]
        > #[trigger] at[e] by {
        assert(forth[n - 1 - e] < forth[n - 1 - r]);
    }
    assert forall|q: int| 0 <= q < history.len() && (
    #[trigger] history[q]).path is Some implies at.contains(q) by {
        assert(known(history[q]));
        assert(forth.contains(q));
        let m = choose|m: int| 0 <= m < forth.len() && forth[m] == q;
        assert(at[n - 1 - m] == q);
    }
    at
}

proof fn lemma_no_later_play(
    history: Seq<PlayData>,
    rows: Seq<PlayData>,
    at: Seq<int>,
    r: int,
    q: int,
)
    requires
        backwards(history, rows, at),
        0 <= r < rows.len(),
        at[r] < q < history.len(),
        forall|e: int|
            0 <= e < r ==> #[trigger] play_song_keys(rows)[e] != play_song_keys(rows)[r],
    ensures
        !same_song(history[q], rows[r]),
{
    if same_song(history[q], rows[r]) {
        assert(history[q].path is Some);
        assert(at.contains(q));
        let e = choose|e: int| 0 <= e < at.len() && at[e] == q;
        if r < e {
            assert(at[r] > at[e]);
        }
        assert(rows[e] == history[at[e]]);
        assert(play_song_keys(rows)[e] == play_song_keys(rows)[r]);
    }
}

proof fn lemma_song_is_listed(rows: Seq<PlayData>, e: int) -> (k: int)
    requires
        rows.len() <= usize::MAX,
        0 <= e < rows.len(),
        forall|r: int| 0 <= r < rows.len() ==> (#[trigger] rows[r]).path is Some,
    ensures
        0 <= k < first_indices(play_song_keys(rows)).len(),
        same_song(rows[first_indices(play_song_keys(rows))[k] as int], rows[e]),
{
    let keys = play_song_keys(rows);
    let firsts = first_indices(keys);
    law_first_rows(keys);
    assert(keys_at(keys, firsts).contains(keys[e]));
    let k = choose|k: int| 0 <= k < firsts.len() && keys_at(keys, firsts)[k] == keys[e];
    assert(firsts[k] < keys.len());
    assert(rows[firsts[k] as int].path is Some && rows[e].path is Some);
    lemma_song_key_injective(rows[firsts[k] as int], rows[e]);
    k
}

/// The songs played last are the last plays of all songs with a file, the latest first: each stands
/// for its song, that is for its title, its artist and its file.
pub proof fn law_latest_songs_are_last_plays(t: Tables)
    requires
        t.history.len() <= usize::MAX,
    ensures
        ({
            let out = latest_songs(t, -1);
            exists|places: Seq<int>| lists_last_plays(t.history, out, places)
        }),
{
    lemma_filter_places(t.history, |p: PlayData| p.path is Some);
    let rows = plays_of_files(t.history).reverse();
    let at = lemma_backwards(t.history);
    let keys = play_song_keys(rows);
    let firsts = first_indices(keys);
    lemma_first_indices(keys);
    let out = latest_songs(t, -1);
    let places = firsts.map_values(|r: usize| at[r as int]);
    assert forall|r: int| 0 <= r < rows.len() implies (#[trigger] rows[r]).path is Some by {
        assert(0 <= at[r]);
    }
    assert forall|k: int| 0 <= k < out.len() implies {
        &&& 0 <= #[trigger] places[k] < t.history.len()
        &&& out[k] == t.history[places[k]]
        &&& out[k].path is Some
        &&& forall|q: int|
            places[k] < q < t.history.len() ==> !same_song(#[trigger] t.history[q], out[k])
    } by {
        let r = firsts[k] as int;
        assert(firsts[k] < keys.len());
        assert(0 <= at[r]);
        assert forall|q: int| places[k] < q < t.history.len() implies !same_song(
            #[trigger] t.history[q],
            out[k],
        ) by {
            assert forall|e: int| 0 <= e < r implies #[trigger] keys[e] != keys[r] by {
                assert(keys[e] != keys[firsts[k] as int]);
            }
            lemma_no_later_play(t.history, rows, at, r, q);
        }
    }
    assert forall|i: int, j: int| 0 <= i < j < places.len() implies #[trigger] places[i]
        > #[trigger] places[j] by {
        assert(firsts[i] < firsts[j]);
        assert(firsts[j] < keys.len());
        assert(at[firsts[i] as int] > at[firsts[j] as int]);
    }
    assert forall|q: int| 0 <= q < t.history.len() && (
    #[trigger] t.history[q]).path is Some implies exists|k: int|
        0 <= k < out.len() && same_song(#[trigger] out[k], t.history[q]) by {
        assert(at.contains(q));
        let e = choose|e: int| 0 <= e < at.len() && at[e] == q;
        assert(rows[e] == t.history[at[e]]);
        let k = lemma_song_is_listed(rows, e);
        assert(same_song(out[k], t.history[q]));
    }
    assert(lists_last_plays(t.history, out, places));
}

} // verus!
