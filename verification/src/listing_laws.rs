//! What holds of the listed playlists and of the songs of the library.

use vstd::prelude::*;

use crate::listing::access_keys;
use crate::listing::all_paths;
use crate::listing::first_nul;
use crate::listing::folded;
use crate::listing::folded_key;
use crate::listing::last_play;
use crate::listing::last_play_keys;
use crate::listing::latest_playlists;
use crate::listing::path_keys;
use crate::listing::playlist_name_keys;
use crate::listing::playlists_by_name;
use crate::listing::utf8_len;
use crate::listing::zeros;
use crate::listing::PlaylistRow;
use crate::order::lemma_lex_total;
use crate::order::lex_less;
use crate::order::ordered_by;
use crate::order::ranks_before;
use crate::order::stable_order;
use crate::order_laws::lemma_order_contains;
use crate::pages::PlaylistItem;
use crate::playlists::entries_of;
use crate::relations::agree;
use crate::relations::cut;
use crate::relations::law_keys_compare;
use crate::relations::law_limit_cuts;
use crate::relations::law_texts_compare;
use crate::relations::lemma_filter_lists;
use crate::relations::lemma_ordered_is_sorted;
use crate::relations::lists_those;
use crate::relations::precedes;
use crate::relations::sorted_stably;
use crate::tables::text_view;
use crate::tables::EntryData;
use crate::tables::PlayData;
use crate::tables::PlaylistData;
use crate::tables::Tables;
use crate::tally::first_indices;
use crate::tally::groups_by_key;
use crate::tally::keys_at;
use crate::tally::lemma_first_indices;
use crate::tally::text_key;
use crate::tally_laws::law_first_rows;
use crate::tally_laws::law_groups_by_key;
use crate::tally_laws::lemma_single;
use crate::text::ascii_folded;
use crate::text::ascii_lower;

verus! {

/// The text has no NUL character.
pub open spec fn without_nul(s: Seq<char>) -> bool {
    forall|i: int| 0 <= i < s.len() ==> #[trigger] s[i] != '\0'
}

/// A text takes one byte for each character up to U+007F, two up to U+07FF, three up to U+FFFF and
/// four beyond.
pub proof fn law_bytes_of_text(s: Seq<char>, c: char)
    ensures
        utf8_len(Seq::empty()) == 0,
        c as int <= 0x7f ==> utf8_len(s.push(c)) == utf8_len(s) + 1,
        0x7f < c as int <= 0x7ff ==> utf8_len(s.push(c)) == utf8_len(s) + 2,
        0x7ff < c as int <= 0xffff ==> utf8_len(s.push(c)) == utf8_len(s) + 3,
        0xffff < c as int ==> utf8_len(s.push(c)) == utf8_len(s) + 4,
{
    assert(s.push(c).drop_last() =~= s);
}

proof fn lemma_first_nul(head: Seq<char>, rest: Seq<char>)
    requires
        without_nul(head),
        rest.len() == 0 || rest[0] == '\0',
    ensures
        first_nul(head + rest) == head.len(),
    decreases head.len(),
{
    let s = head + rest;
    if head.len() > 0 {
        let tail = head.drop_first();
        assert(s[0] == head[0]);
        assert forall|i: int| 0 <= i < tail.len() implies #[trigger] tail[i] != '\0' by {
            assert(tail[i] == head[i + 1]);
        }
        assert(s.drop_first() =~= tail + rest);
        lemma_first_nul(tail, rest);
    } else if rest.len() > 0 {
        assert(s[0] == rest[0]);
    }
}

proof fn lemma_folded_number(c: char)
    ensures
        folded(c) == ascii_lower(c) as i64,
        c != '\0' ==> ascii_lower(c) as i64 > 0,
{
}

/// What the key of a name looks like.
proof fn lemma_key_of_name(head: Seq<char>, rest: Seq<char>)
    requires
        without_nul(head),
        rest.len() == 0 || rest[0] == '\0',
    ensures
        rest.len() == 0 ==> folded_key(head + rest) == text_key(ascii_folded(head)),
        rest.len() > 0 ==> folded_key(head + rest) == text_key(ascii_folded(head)) + zeros(
            utf8_len(head + rest),
        ),
        forall|i: int| 0 <= i < head.len() ==> #[trigger] text_key(ascii_folded(head))[i] > 0,
{
    let s = head + rest;
    lemma_first_nul(head, rest);
    let seen = s.take(first_nul(s)).map_values(|c: char| folded(c));
    assert(seen =~= text_key(ascii_folded(head))) by {
        assert forall|i: int| 0 <= i < head.len() implies seen[i] == #[trigger] text_key(
            ascii_folded(head),
        )[i] by {
            lemma_folded_number(head[i]);
        }
    }
    assert forall|i: int| 0 <= i < head.len() implies #[trigger] text_key(ascii_folded(head))[i]
        > 0 by {
        lemma_folded_number(head[i]);
    }
}

/// Names without a NUL character compare as they stand in a dictionary once each of their letters
/// A to Z, at every place, is put into lower case: two names that then agree have one key.
pub proof fn law_names_compare(a: Seq<char>, b: Seq<char>)
    requires
        without_nul(a),
        without_nul(b),
    ensures
        lex_less(folded_key(a), folded_key(b)) <==> precedes(ascii_folded(a), ascii_folded(b)),
        folded_key(a) == folded_key(b) <==> ascii_folded(a) == ascii_folded(b),
{
    let none = Seq::<char>::empty();
    assert(a + none =~= a);
    assert(b + none =~= b);
    lemma_key_of_name(a, none);
    lemma_key_of_name(b, none);
    law_texts_compare(ascii_folded(a), ascii_folded(b));
}

proof fn lemma_zeros_compare(x: Seq<i64>, m: nat, y: Seq<i64>, n: nat)
    requires
        forall|i: int| 0 <= i < x.len() ==> #[trigger] x[i] > 0,
        forall|i: int| 0 <= i < y.len() ==> #[trigger] y[i] > 0,
    ensures
        lex_less(x + zeros(m), y + zeros(n)) <==> lex_less(x, y) || (x == y && m < n),
{
    let a = x + zeros(m);
    let b = y + zeros(n);
    law_keys_compare(a, b);
    law_keys_compare(x, y);
    lemma_lex_total(x, y);
    lemma_lex_total(a, b);
    if lex_less(x, y) {
        let k = choose|k: int| #[trigger]
            agree(x, y, k) && k < y.len() && (k == x.len() || x[k] < y[k]);
        assert forall|j: int| 0 <= j < k implies #[trigger] a[j] == b[j] by {
            assert(x[j] == y[j]);
        }
        assert(b[k] == y[k] && y[k] > 0);
        assert(agree(a, b, k));
    } else if x == y {
        let k = x.len() + (if m < n { m } else { n });
        assert forall|j: int| 0 <= j < k implies #[trigger] a[j] == b[j] by {}
        assert(agree(a, b, k as int));
        if m >= n {
            assert(agree(b, a, k as int)) by {
                assert forall|j: int| 0 <= j < k implies #[trigger] b[j] == a[j] by {}
            }
            law_keys_compare(b, a);
            if m == n {
                assert(a =~= b);
            }
        }
    } else {
        law_keys_compare(y, x);
        law_keys_compare(b, a);
        let k = choose|k: int| #[trigger]
            agree(y, x, k) && k < x.len() && (k == y.len() || y[k] < x[k]);
        assert forall|j: int| 0 <= j < k implies #[trigger] b[j] == a[j] by {
            assert(y[j] == x[j]);
        }
        assert(a[k] == x[k] && x[k] > 0);
        assert(agree(b, a, k));
    }
}

/// Of names with a NUL character what stands before it is compared first. Where that agrees, a name
/// without a NUL character comes first, and of two with one that with fewer bytes.
pub proof fn law_names_with_nul_compare(
    a: Seq<char>,
    behind_a: Seq<char>,
    b: Seq<char>,
    behind_b: Seq<char>,
)
    requires
        without_nul(a),
        without_nul(b),
        behind_a.len() == 0 || behind_a[0] == '\0',
        behind_b.len() == 0 || behind_b[0] == '\0',
    ensures
        lex_less(folded_key(a + behind_a), folded_key(b + behind_b)) <==> {
            ||| precedes(ascii_folded(a), ascii_folded(b))
            ||| {
                &&& ascii_folded(a) == ascii_folded(b)
                &&& behind_b.len() > 0
                &&& behind_a.len() == 0 || utf8_len(a + behind_a) < utf8_len(b + behind_b)
            }
        },
{
    lemma_key_of_name(a, behind_a);
    lemma_key_of_name(b, behind_b);
    let x = text_key(ascii_folded(a));
    let y = text_key(ascii_folded(b));
    law_texts_compare(ascii_folded(a), ascii_folded(b));
    let m = if behind_a.len() == 0 {
        0
    } else {
        utf8_len(a + behind_a)
    };
    let n = if behind_b.len() == 0 {
        0
    } else {
        utf8_len(b + behind_b)
    };
    assert(x + zeros(0) =~= x);
    assert(y + zeros(0) =~= y);
    assert forall|i: int| 0 <= i < x.len() implies #[trigger] x[i] > 0 by {}
    assert forall|i: int| 0 <= i < y.len() implies #[trigger] y[i] > 0 by {}
    lemma_zeros_compare(x, m, y, n);
    if behind_b.len() > 0 {
        lemma_bytes_not_none(b + behind_b);
    }
}

proof fn lemma_bytes_not_none(s: Seq<char>)
    requires
        s.len() > 0,
    ensures
        utf8_len(s) > 0,
{
}

/// The list of playlists ascends by name: of two names without a NUL character the one that stands
/// first in a dictionary once each letter A to Z, at every place, is put into lower case is listed
/// first. Of two that then agree the playlist with the smaller number is.
pub proof fn law_playlists_stand_by_name(t: Tables, i: int, j: int)
    requires
        t.wf(),
        t.playlists.len() <= usize::MAX,
        0 <= i < j < playlists_by_name(t).len(),
        without_nul(playlists_by_name(t)[i].name),
        without_nul(playlists_by_name(t)[j].name),
    ensures
        ({
            let p = playlists_by_name(t)[i];
            let q = playlists_by_name(t)[j];
            ||| precedes(ascii_folded(p.name), ascii_folded(q.name))
            ||| ascii_folded(p.name) == ascii_folded(q.name) && p.id < q.id
        }),
{
    let keys = playlist_name_keys(t.playlists);
    lemma_order_contains(t.playlists, keys, false);
    let order = stable_order(keys, false);
    let p = playlists_by_name(t)[i];
    let q = playlists_by_name(t)[j];
    assert(order[i] < t.playlists.len() && order[j] < t.playlists.len());
    assert(p == t.playlists[order[i] as int] && q == t.playlists[order[j] as int]);
    assert(ranks_before(keys, false, order[i], order[j]));
    law_names_compare(p.name, q.name);
}

/// The list of playlists has every playlist once, as their name keys compare, playlists with one
/// key as they stand in the table.
pub proof fn law_playlists_are_sorted(t: Tables)
    requires
        t.playlists.len() <= usize::MAX,
    ensures
        sorted_stably(
            t.playlists,
            playlists_by_name(t),
            |p: PlaylistData, q: PlaylistData| lex_less(folded_key(p.name), folded_key(q.name)),
        ),
{
    let before = |p: PlaylistData, q: PlaylistData|
        lex_less(folded_key(p.name), folded_key(q.name));
    lemma_ordered_is_sorted(t.playlists, playlist_name_keys(t.playlists), false, before);
}

/// The songs of a playlist are the song rows with its number, in the order of the table.
pub proof fn law_songs_belong(t: Tables, id: i64)
    ensures
        lists_those(t.entries, entries_of(t, id), |e: EntryData| e.playlist_id == id),
{
    let keep = |e: EntryData| e.playlist_id == id;
    lemma_filter_lists(t.entries, keep, keep);
}

/// A listed playlist shows its number, its name, its cover and how many song rows have its number;
/// its tile shows the same.
pub proof fn law_listed_playlist_shows(
    row: PlaylistRow,
    item: PlaylistItem,
    t: Tables,
    p: PlaylistData,
)
    requires
        row.shows(t, p),
        item.shows(t, p),
    ensures
        row.id == p.id,
        row.name@ == p.name,
        text_view(row.cover) == p.cover,
        row.song_count == entries_of(t, p.id).len(),
        item.id == p.id as i32,
        item.name@ == p.name,
        text_view(item.cover) == p.cover,
        item.song_count == row.song_count as i32,
{
}

/// The playlists played last: one that was played stands before one that never was, and of two that
/// were played the one with the later time stands first; else they stand as in the table. A limit
/// keeps the first of them.
pub proof fn law_latest_playlists_stand_by_access(t: Tables, limit: int)
    requires
        t.playlists.len() <= usize::MAX,
    ensures
        sorted_stably(
            t.playlists,
            latest_playlists(t, -1),
            |p: PlaylistData, q: PlaylistData|
                {
                    &&& t.accessed.contains_key(p.id)
                    &&& t.accessed.contains_key(q.id) ==> precedes(
                        t.accessed[q.id],
                        t.accessed[p.id],
                    )
                },
        ),
        cut(latest_playlists(t, -1), latest_playlists(t, limit), limit),
{
    let before = |p: PlaylistData, q: PlaylistData|
        {
            &&& t.accessed.contains_key(p.id)
            &&& t.accessed.contains_key(q.id) ==> precedes(t.accessed[q.id], t.accessed[p.id])
        };
    let keys = access_keys(t);
    assert forall|i: int, j: int|
        0 <= i < t.playlists.len() && 0 <= j < t.playlists.len() implies #[trigger] before(
        t.playlists[i],
        t.playlists[j],
    ) == lex_less(keys[j], keys[i]) by {
        let p = t.playlists[i];
        let q = t.playlists[j];
        if t.accessed.contains_key(p.id) {
            let x = text_key(t.accessed[p.id]);
            assert(keys[i] == seq![1i64] + x);
            if t.accessed.contains_key(q.id) {
                let y = text_key(t.accessed[q.id]);
                assert(keys[j] == seq![1i64] + y);
                assert((seq![1i64] + x).drop_first() =~= x);
                assert((seq![1i64] + y).drop_first() =~= y);
                law_texts_compare(t.accessed[q.id], t.accessed[p.id]);
            } else {
                assert(keys[j] =~= Seq::<i64>::empty());
            }
        } else {
            assert(keys[i] =~= Seq::<i64>::empty());
        }
    }
    lemma_ordered_is_sorted(t.playlists, keys, true, before);
    law_limit_cuts(ordered_by(t.playlists, keys, true), limit);
}

/// In the sort modes but those by last addition and by last play, the songs of the library stand in
/// the order in which their files first came to a playlist; by last addition they stand the other
/// way round.
pub proof fn law_library_stands_by_addition(t: Tables, sort: i32, i: int, j: int)
    requires
        t.entries.len() <= usize::MAX,
        0 <= i < all_paths(t, sort).len(),
        0 <= j < all_paths(t, sort).len(),
        sort == 1 ==> j < i,
        sort != 1 ==> i < j,
        sort != 2,
    ensures
        exists|p: int|
            {
                &&& 0 <= p < t.entries.len()
                &&& (#[trigger] t.entries[p]).path == all_paths(t, sort)[i]
                &&& forall|q: int|
                    0 <= q <= p ==> (#[trigger] t.entries[q]).path != all_paths(t, sort)[j]
            },
{
    let keys = path_keys(t.entries);
    let firsts = first_indices(keys);
    lemma_first_indices(keys);
    let n = firsts.len() as int;
    let a = if sort == 1 {
        n - 1 - i
    } else {
        i
    };
    let b = if sort == 1 {
        n - 1 - j
    } else {
        j
    };
    assert(firsts[a] < firsts[b]);
    assert(firsts[a] < keys.len() && firsts[b] < keys.len());
    let p = firsts[a] as int;
    assert(all_paths(t, sort)[i] == t.entries[p].path);
    assert(all_paths(t, sort)[j] == t.entries[firsts[b] as int].path);
    assert forall|q: int| 0 <= q <= p implies (#[trigger] t.entries[q]).path != all_paths(
        t,
        sort,
    )[j] by {
        assert(keys[q] != keys[firsts[b] as int]);
    }
}

proof fn lemma_last_play_place(history: Seq<PlayData>, path: Seq<char>) -> (p: int)
    ensures
        last_play(history, path) is None ==> forall|q: int|
            0 <= q < history.len() ==> (#[trigger] history[q]).path != Some(path),
        last_play(history, path) is Some ==> {
            &&& 0 <= p < history.len()
            &&& history[p].path == Some(path)
            &&& last_play(history, path) == Some(history[p].id)
            &&& forall|q: int| p < q < history.len() ==> (#[trigger] history[q]).path != Some(path)
        },
    decreases history.len(),
{
    if history.len() == 0 {
        0
    } else if history.last().path == Some(path) {
        history.len() - 1
    } else {
        let shorter = history.drop_last();
        let p = lemma_last_play_place(shorter, path);
        assert forall|q: int| 0 <= q < shorter.len() implies #[trigger] history[q]
            == shorter[q] by {}
        p
    }
}

/// In the sort mode by last play, a song that was played stands before one that never was, and of
/// two that were played the one that was played later stands first. Songs never played stand as
/// their paths stand in a dictionary.
pub proof fn law_library_stands_by_last_play(t: Tables, i: int, j: int)
    requires
        t.wf(),
        t.entries.len() <= usize::MAX,
        0 <= i < j < all_paths(t, 2).len(),
    ensures
        ({
            let a = all_paths(t, 2)[i];
            let b = all_paths(t, 2)[j];
            &&& forall|q: int|
                0 <= q < t.history.len() && (#[trigger] t.history[q]).path == Some(b) ==> exists|
                    p: int,
                |
                    q < p < t.history.len() && (#[trigger] t.history[p]).path == Some(a)
            &&& (forall|q: int|
                0 <= q < t.history.len() ==> (#[trigger] t.history[q]).path != Some(a)) ==> precedes(
                a,
                b,
            )
        }),
{
    let keys = path_keys(t.entries);
    let firsts = first_indices(keys);
    let groups = groups_by_key(keys, false);
    let by = last_play_keys(t, groups);
    law_groups_by_key(keys, false);
    lemma_first_indices(keys);
    law_first_rows(keys);
    lemma_order_contains(firsts, keys_at(keys, firsts), false);
    lemma_order_contains(groups, by, true);
    let inner = stable_order(keys_at(keys, firsts), false);
    let order = stable_order(by, true);
    let x = order[i];
    let y = order[j];
    assert(x < groups.len() && y < groups.len());
    assert(ranks_before(by, true, order[i], order[j]));
    let g = groups[x as int];
    let h = groups[y as int];
    assert(g < keys.len() && h < keys.len());
    let a = all_paths(t, 2)[i];
    let b = all_paths(t, 2)[j];
    assert(a == t.entries[g as int].path && b == t.entries[h as int].path);
    let p = lemma_last_play_place(t.history, a);
    let q = lemma_last_play_place(t.history, b);
    assert(order[i] != order[j]);
    assert(keys[g as int] != keys[h as int]);
    if last_play(t.history, a) is Some {
        assert(by[x as int] =~= seq![t.history[p].id]);
    } else {
        assert(by[x as int] =~= Seq::<i64>::empty());
    }
    if last_play(t.history, b) is Some {
        assert(by[y as int] =~= seq![t.history[q].id]);
    } else {
        assert(by[y as int] =~= Seq::<i64>::empty());
    }
    if last_play(t.history, b) is Some {
        if last_play(t.history, a) is Some {
            lemma_single(t.history[q].id, t.history[p].id);
            if by[x as int] == by[y as int] {
                if p < q {
                    assert(t.history[p].id < t.history[q].id);
                } else if q < p {
                    assert(t.history[q].id < t.history[p].id);
                }
                assert(p == q);
                assert(a == b);
            }
            if p < q {
                assert(t.history[p].id < t.history[q].id);
            }
            assert(q < p);
        }
        assert forall|r: int|
            0 <= r < t.history.len() && (#[trigger] t.history[r]).path == Some(
                b,
            ) implies exists|p: int|
            r < p < t.history.len() && (#[trigger] t.history[p]).path == Some(a) by {
            assert(r <= q);
            assert(t.history[p].path == Some(a));
        }
    }
    if last_play(t.history, a) is None && last_play(t.history, b) is None {
        assert(x < y);
        let fk = keys_at(keys, firsts);
        assert(inner[x as int] < firsts.len() && inner[y as int] < firsts.len());
        assert(ranks_before(fk, false, inner[x as int], inner[y as int]));
        assert(g == firsts[inner[x as int] as int] && h == firsts[inner[y as int] as int]);
        assert(fk[inner[x as int] as int] == keys[g as int]);
        assert(fk[inner[y as int] as int] == keys[h as int]);
        law_texts_compare(a, b);
    }
}

/// Every sort mode but those by last addition and by last play lists the songs in one order.
pub proof fn law_other_modes_list_alike(t: Tables, sort: i32)
    requires
        sort != 1,
        sort != 2,
    ensures
        all_paths(t, sort) == all_paths(t, 0),
{
}

} // verus!
