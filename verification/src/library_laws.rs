//! What holds of the library index and of the search over it.

use vstd::prelude::*;

use crate::library::album_keys;
use crate::library::album_name_keys;
use crate::library::answers;
use crate::library::artist_keys;
use crate::library::artist_name_keys;
use crate::library::in_category;
use crate::library::in_sort_mode;
use crate::library::indexes_albums;
use crate::library::indexes_artists;
use crate::library::lists_albums;
use crate::library::lists_artists;
use crate::library::on_albums;
use crate::library::search_results;
use crate::library::title_keys;
use crate::library::tracks_of_album;
use crate::library::tracks_of_artist;
use crate::library::AlbumEntry;
use crate::library::ArtistEntry;
use crate::order::lemma_lex_total;
use crate::order::lex_less;
use crate::order::ordered_by;
use crate::order::ranks_before;
use crate::order::stable_order;
use crate::order_laws::law_order_permutes;
use crate::order_laws::lemma_order_contains;
use crate::relations::law_texts_compare;
use crate::relations::lemma_filter_lists;
use crate::relations::lemma_filter_picks;
use crate::relations::lemma_ordered_is_sorted;
use crate::relations::lists_those;
use crate::relations::precedes;
use crate::relations::sorted_stably;
use crate::relations::stands_in;
use crate::tables::filter_place;
use crate::tables::lemma_filter_and;
use crate::tables::lemma_filter_filter;
use crate::tables::lemma_filter_first;
use crate::tables::lemma_filter_places;
use crate::tally::first_indices;
use crate::tally::keys_at;
use crate::tally::lemma_first_indices;
use crate::tally::lemma_text_key_injective;
use crate::tally::text_key;
use crate::tally_laws::counts_of;
use crate::tally_laws::law_count_is_filter;
use crate::tally_laws::law_first_rows;
use crate::tally_laws::law_sizes_add_up;
use crate::tally_laws::sum_of;
use crate::text::ascii_folded;
use crate::text::law_folded_once;
use crate::text::law_trimmed_folded;
use crate::text::law_trimmed_once;
use crate::text::lowercase;
use crate::text::trimmed;
use crate::text_laws::law_substring_is_a_piece;
use crate::track::Track;

verus! {

/// Sorting by title loses no track and adds none, and the titles ascend in whatever letter case.
/// Every other mode keeps the given order.
pub proof fn law_songs_are_sorted(tracks: Seq<Track>, sort: i32)
    requires
        tracks.len() <= usize::MAX,
    ensures
        in_sort_mode(tracks, sort).to_multiset() == tracks.to_multiset(),
        sort != 0 ==> in_sort_mode(tracks, sort) == tracks,
        sort == 0 ==> forall|i: int, j: int|
            0 <= i < j < tracks.len() ==> !lex_less(
                text_key(lowercase((#[trigger] in_sort_mode(tracks, sort)[j]).title@)),
                text_key(lowercase((#[trigger] in_sort_mode(tracks, sort)[i]).title@)),
            ),
{
    let keys = title_keys(tracks);
    law_order_permutes(tracks, keys, false);
    lemma_order_contains(tracks, keys, false);
    let order = stable_order(keys, false);
    let out = ordered_by(tracks, keys, false);
    assert forall|i: int, j: int| 0 <= i < j < tracks.len() implies !lex_less(
        text_key(lowercase((#[trigger] out[j]).title@)),
        text_key(lowercase((#[trigger] out[i]).title@)),
    ) by {
        assert(ranks_before(keys, false, order[i], order[j]));
        assert(order[i] < tracks.len() && order[j] < tracks.len());
        assert(out[i] == tracks[order[i] as int] && out[j] == tracks[order[j] as int]);
        lemma_lex_total(keys[order[i] as int], keys[order[j] as int]);
    }
}

/// What an index of albums says of one of them: it has a name, its count is the number of its
/// tracks, and its artist and path are those of its first track.
pub open spec fn album_is_right(tracks: Seq<Track>, a: AlbumEntry) -> bool {
    let own = tracks_of_album(tracks, a.name@);
    &&& a.name@.len() > 0
    &&& own.len() > 0
    &&& a.count == own.len()
    &&& a.artist == own[0].artist
    &&& a.path == own[0].path
}

proof fn lemma_found_album(tracks: Seq<Track>, found: Seq<AlbumEntry>, k: int)
    requires
        tracks.len() <= usize::MAX,
        lists_albums(on_albums(tracks), found),
        0 <= k < found.len(),
    ensures
        album_is_right(tracks, found[k]),
{
    let named = |t: Track| t.album@.len() > 0;
    let rows = on_albums(tracks);
    lemma_filter_places(tracks, named);
    let keys = album_keys(rows);
    let firsts = first_indices(keys);
    lemma_first_indices(keys);
    let g = firsts[k] as int;
    assert(firsts[k] < keys.len());
    let name = rows[g].album@;
    assert(found[k].name == rows[g].album);
    assert(named(rows[g]));
    let own = |t: Track| t.album@ == name;
    assert forall|i: int| 0 <= i < rows.len() implies (own(#[trigger] rows[i]) <==> keys[i]
        == text_key(name)) by {
        if keys[i] == text_key(name) {
            lemma_text_key_injective(rows[i].album@, name);
        }
    }
    law_count_is_filter(rows, keys, text_key(name), own);
    lemma_filter_filter(tracks, named, own);
    assert forall|j: int| 0 <= j < g implies !own(#[trigger] rows[j]) by {
        assert(keys[j] != keys[firsts[k] as int]);
    }
    lemma_filter_first(rows, own, g);
    assert(own =~= |t: Track| t.album@ == found[k].name@);
}

/// The index of albums lists every album of the tracks once, by name, each with the number of its
/// tracks and with the artist and the path of its first track.
pub proof fn law_albums_are_indexed(tracks: Seq<Track>, albums: Seq<AlbumEntry>)
    requires
        tracks.len() <= usize::MAX,
        indexes_albums(tracks, albums),
    ensures
        forall|k: int| 0 <= k < albums.len() ==> album_is_right(tracks, #[trigger] albums[k]),
        forall|i: int, j: int|
            0 <= i < j < albums.len() ==> {
                &&& (#[trigger] albums[i]).name@ != (#[trigger] albums[j]).name@
                &&& !lex_less(
                    text_key(lowercase(albums[j].name@)),
                    text_key(lowercase(albums[i].name@)),
                )
            },
        forall|i: int|
            0 <= i < tracks.len() && (#[trigger] tracks[i]).album@.len() > 0 ==> exists|k: int|
                0 <= k < albums.len() && (#[trigger] albums[k]).name@ == tracks[i].album@,
{
    let found = choose|found: Seq<AlbumEntry>|
        {
            &&& #[trigger] lists_albums(on_albums(tracks), found)
            &&& albums == ordered_by(found, album_name_keys(found), false)
        };
    let named = |t: Track| t.album@.len() > 0;
    let rows = on_albums(tracks);
    lemma_filter_places(tracks, named);
    let keys = album_keys(rows);
    let firsts = first_indices(keys);
    lemma_first_indices(keys);
    law_first_rows(keys);
    let by = album_name_keys(found);
    lemma_order_contains(found, by, false);
    let order = stable_order(by, false);
    assert forall|k: int| 0 <= k < albums.len() implies album_is_right(
        tracks,
        #[trigger] albums[k],
    ) by {
        assert(order[k] < found.len());
        assert(albums[k] == found[order[k] as int]);
        lemma_found_album(tracks, found, order[k] as int);
    }
    assert forall|i: int, j: int| 0 <= i < j < albums.len() implies {
        &&& (#[trigger] albums[i]).name@ != (#[trigger] albums[j]).name@
        &&& !lex_less(
            text_key(lowercase(albums[j].name@)),
            text_key(lowercase(albums[i].name@)),
        )
    } by {
        let a = order[i];
        let b = order[j];
        assert(a < found.len() && b < found.len() && a != b);
        assert(albums[i] == found[a as int] && albums[j] == found[b as int]);
        assert(keys[firsts[a as int] as int] != keys[firsts[b as int] as int]);
        assert(found[a as int].name == rows[firsts[a as int] as int].album);
        assert(found[b as int].name == rows[firsts[b as int] as int].album);
        assert(firsts[a as int] < keys.len() && firsts[b as int] < keys.len());
        assert(ranks_before(by, false, order[i], order[j]));
        lemma_lex_total(by[a as int], by[b as int]);
    }
    assert forall|i: int| 0 <= i < tracks.len() && (
    #[trigger] tracks[i]).album@.len() > 0 implies exists|k: int|
        0 <= k < albums.len() && (#[trigger] albums[k]).name@ == tracks[i].album@ by {
        tracks.lemma_filter_contains(named, i);
        let r = choose|r: int| 0 <= r < rows.len() && rows[r] == tracks[i];
        assert(keys_at(keys, firsts).contains(keys[r]));
        let m = choose|m: int| 0 <= m < firsts.len() && keys_at(keys, firsts)[m] == keys[r];
        assert(firsts[m] < keys.len());
        lemma_text_key_injective(rows[firsts[m] as int].album@, rows[r].album@);
        assert(found[m].name == rows[firsts[m] as int].album);
        assert(albums.contains(found[m]));
        let k = choose|k: int| 0 <= k < albums.len() && albums[k] == found[m];
        assert(albums[k].name@ == tracks[i].album@);
    }
}

/// The index of artists lists every artist of the tracks once, by name, each with the number of
/// their tracks.
pub proof fn law_artists_are_indexed(tracks: Seq<Track>, artists: Seq<ArtistEntry>)
    requires
        tracks.len() <= usize::MAX,
        indexes_artists(tracks, artists),
    ensures
        forall|k: int|
            0 <= k < artists.len() ==> {
                let own = tracks_of_artist(tracks, (#[trigger] artists[k]).name@);
                own.len() > 0 && artists[k].count == own.len()
            },
        forall|i: int, j: int|
            0 <= i < j < artists.len() ==> {
                &&& (#[trigger] artists[i]).name@ != (#[trigger] artists[j]).name@
                &&& !lex_less(
                    text_key(lowercase(artists[j].name@)),
                    text_key(lowercase(artists[i].name@)),
                )
            },
        forall|i: int|
            0 <= i < tracks.len() ==> exists|k: int|
                0 <= k < artists.len() && (#[trigger] artists[k]).name@ == (
                #[trigger] tracks[i]).artist@,
{
    let found = choose|found: Seq<ArtistEntry>|
        {
            &&& #[trigger] lists_artists(tracks, found)
            &&& artists == ordered_by(found, artist_name_keys(found), false)
        };
    let keys = artist_keys(tracks);
    let firsts = first_indices(keys);
    lemma_first_indices(keys);
    law_first_rows(keys);
    let by = artist_name_keys(found);
    lemma_order_contains(found, by, false);
    let order = stable_order(by, false);
    assert forall|k: int| 0 <= k < artists.len() implies {
        let own = tracks_of_artist(tracks, (#[trigger] artists[k]).name@);
        own.len() > 0 && artists[k].count == own.len()
    } by {
        let a = order[k] as int;
        assert(order[k] < found.len());
        assert(artists[k] == found[a]);
        let g = firsts[a] as int;
        assert(firsts[a] < keys.len());
        let name = tracks[g].artist@;
        assert(found[a].name == tracks[g].artist);
        let own = |t: Track| t.artist@ == name;
        assert forall|i: int| 0 <= i < tracks.len() implies (own(#[trigger] tracks[i]) <==> keys[i]
            == text_key(name)) by {
            if keys[i] == text_key(name) {
                lemma_text_key_injective(tracks[i].artist@, name);
            }
        }
        law_count_is_filter(tracks, keys, text_key(name), own);
        assert forall|j: int| 0 <= j < g implies !own(#[trigger] tracks[j]) by {
            assert(keys[j] != keys[firsts[a] as int]);
        }
        lemma_filter_first(tracks, own, g);
        assert(own =~= |t: Track| t.artist@ == artists[k].name@);
    }
    assert forall|i: int, j: int| 0 <= i < j < artists.len() implies {
        &&& (#[trigger] artists[i]).name@ != (#[trigger] artists[j]).name@
        &&& !lex_less(
            text_key(lowercase(artists[j].name@)),
            text_key(lowercase(artists[i].name@)),
        )
    } by {
        let a = order[i];
        let b = order[j];
        assert(a < found.len() && b < found.len() && a != b);
        assert(artists[i] == found[a as int] && artists[j] == found[b as int]);
        assert(keys[firsts[a as int] as int] != keys[firsts[b as int] as int]);
        assert(found[a as int].name == tracks[firsts[a as int] as int].artist);
        assert(found[b as int].name == tracks[firsts[b as int] as int].artist);
        assert(firsts[a as int] < keys.len() && firsts[b as int] < keys.len());
        assert(ranks_before(by, false, order[i], order[j]));
        lemma_lex_total(by[a as int], by[b as int]);
    }
    assert forall|i: int| 0 <= i < tracks.len() implies exists|k: int|
        0 <= k < artists.len() && (#[trigger] artists[k]).name@ == (
        #[trigger] tracks[i]).artist@ by {
        assert(keys_at(keys, firsts).contains(keys[i]));
        let m = choose|m: int| 0 <= m < firsts.len() && keys_at(keys, firsts)[m] == keys[i];
        assert(firsts[m] < keys.len());
        lemma_text_key_injective(tracks[firsts[m] as int].artist@, tracks[i].artist@);
        assert(found[m].name == tracks[firsts[m] as int].artist);
        assert(artists.contains(found[m]));
        let k = choose|k: int| 0 <= k < artists.len() && artists[k] == found[m];
        assert(artists[k].name@ == tracks[i].artist@);
    }
}

/// The counts of an index of albums.
pub open spec fn album_counts(albums: Seq<AlbumEntry>) -> Seq<int> {
    albums.map_values(|a: AlbumEntry| a.count as int)
}

/// The counts of an index of artists.
pub open spec fn artist_counts(artists: Seq<ArtistEntry>) -> Seq<int> {
    artists.map_values(|a: ArtistEntry| a.count as int)
}

/// The counts of the albums add up to the number of tracks that have an album.
pub proof fn law_album_counts_add_up(tracks: Seq<Track>, albums: Seq<AlbumEntry>)
    requires
        tracks.len() <= usize::MAX,
        indexes_albums(tracks, albums),
    ensures
        sum_of(album_counts(albums)) == on_albums(tracks).len(),
{
    law_albums_are_indexed(tracks, albums);
    let named = |t: Track| t.album@.len() > 0;
    let rows = on_albums(tracks);
    lemma_filter_places(tracks, named);
    let keys = album_keys(rows);
    let listed = albums.map_values(|a: AlbumEntry| text_key(a.name@));
    assert(listed.no_duplicates()) by {
        assert forall|i: int, j: int|
            0 <= i < listed.len() && 0 <= j < listed.len() && i != j implies listed[i]
            != listed[j] by {
            if listed[i] == listed[j] {
                lemma_text_key_injective(albums[i].name@, albums[j].name@);
            }
        }
    }
    assert forall|r: int| 0 <= r < keys.len() implies listed.contains(#[trigger] keys[r]) by {
        assert(named(rows[r]));
        let i = filter_place(tracks, named, r);
        assert(tracks[i] == rows[r]);
        assert(tracks[i].album@.len() > 0);
        let k = choose|k: int|
            0 <= k < albums.len() && (#[trigger] albums[k]).name@ == tracks[i].album@;
        assert(listed[k] == keys[r]);
    }
    law_sizes_add_up(keys, listed);
    assert forall|k: int| 0 <= k < albums.len() implies #[trigger] album_counts(albums)[k]
        == counts_of(keys, listed)[k] by {
        assert(album_is_right(tracks, albums[k]));
        let name = albums[k].name@;
        let own = |t: Track| t.album@ == name;
        assert(own =~= |t: Track| t.album@ == albums[k].name@);
        assert forall|i: int| 0 <= i < rows.len() implies (own(#[trigger] rows[i]) <==> keys[i]
            == text_key(name)) by {
            if keys[i] == text_key(name) {
                lemma_text_key_injective(rows[i].album@, name);
            }
        }
        law_count_is_filter(rows, keys, text_key(name), own);
        lemma_filter_filter(tracks, named, own);
    }
    assert(album_counts(albums) =~= counts_of(keys, listed));
}

/// The counts of the artists add up to the number of tracks.
pub proof fn law_artist_counts_add_up(tracks: Seq<Track>, artists: Seq<ArtistEntry>)
    requires
        tracks.len() <= usize::MAX,
        indexes_artists(tracks, artists),
    ensures
        sum_of(artist_counts(artists)) == tracks.len(),
{
    law_artists_are_indexed(tracks, artists);
    let keys = artist_keys(tracks);
    let listed = artists.map_values(|a: ArtistEntry| text_key(a.name@));
    assert(listed.no_duplicates()) by {
        assert forall|i: int, j: int|
            0 <= i < listed.len() && 0 <= j < listed.len() && i != j implies listed[i]
            != listed[j] by {
            if listed[i] == listed[j] {
                lemma_text_key_injective(artists[i].name@, artists[j].name@);
            }
        }
    }
    assert forall|r: int| 0 <= r < keys.len() implies listed.contains(#[trigger] keys[r]) by {
        assert(keys[r] == text_key(tracks[r].artist@));
        let k = choose|k: int|
            0 <= k < artists.len() && (#[trigger] artists[k]).name@ == tracks[r].artist@;
        assert(listed[k] == keys[r]);
    }
    law_sizes_add_up(keys, listed);
    assert forall|k: int| 0 <= k < artists.len() implies #[trigger] artist_counts(artists)[k]
        == counts_of(keys, listed)[k] by {
        let name = artists[k].name@;
        let own = |t: Track| t.artist@ == name;
        assert(own =~= |t: Track| t.artist@ == artists[k].name@);
        assert forall|i: int| 0 <= i < tracks.len() implies (own(#[trigger] tracks[i]) <==> keys[i]
            == text_key(name)) by {
            if keys[i] == text_key(name) {
                lemma_text_key_injective(tracks[i].artist@, name);
            }
        }
        law_count_is_filter(tracks, keys, text_key(name), own);
    }
    assert(artist_counts(artists) =~= counts_of(keys, listed));
}

/// A search for music and one for speech share out what a search for both finds, each in the order
/// of the library.
pub proof fn law_search_categories(tracks: Seq<Track>, query: Seq<char>)
    ensures
        search_results(tracks, query, 1) == search_results(tracks, query, 0).filter(
            |t: Track| !t.is_voice,
        ),
        search_results(tracks, query, 2) == search_results(tracks, query, 0).filter(
            |t: Track| t.is_voice,
        ),
{
    let q = lowercase(trimmed(query));
    if q.len() == 0 {
        reveal(Seq::filter);
    } else {
        let any = |t: Track| answers(t, q) && in_category(t, 0);
        lemma_filter_and(
            tracks,
            any,
            |t: Track| !t.is_voice,
            |t: Track| answers(t, q) && in_category(t, 1),
        );
        lemma_filter_and(
            tracks,
            any,
            |t: Track| t.is_voice,
            |t: Track| answers(t, q) && in_category(t, 2),
        );
    }
}

/// What a search finds are tracks of the library that answer the query and are of the category, and
/// it finds all of those.
pub proof fn law_search_finds_what_answers(
    tracks: Seq<Track>,
    query: Seq<char>,
    filter: i32,
    t: Track,
)
    requires
        lowercase(trimmed(query)).len() > 0,
    ensures
        search_results(tracks, query, filter).contains(t) <==> tracks.contains(t) && answers(
            t,
            lowercase(trimmed(query)),
        ) && in_category(t, filter),
{
    let q = lowercase(trimmed(query));
    let keep = |t: Track| answers(t, q) && in_category(t, filter);
    lemma_filter_places(tracks, keep);
    let results = tracks.filter(keep);
    if results.contains(t) {
        let k = choose|k: int| 0 <= k < results.len() && results[k] == t;
        assert(keep(results[k]));
        assert(tracks[filter_place(tracks, keep, k)] == t);
    }
    if tracks.contains(t) && keep(t) {
        let i = choose|i: int| 0 <= i < tracks.len() && tracks[i] == t;
        tracks.lemma_filter_contains(keep, i);
    }
}

/// White space around a query does not matter, and neither does the case of its letters A to Z.
pub proof fn law_search_ignores_case(
    tracks: Seq<Track>,
    query: Seq<char>,
    other: Seq<char>,
    filter: i32,
)
    requires
        ascii_folded(trimmed(query)) == ascii_folded(trimmed(other)),
    ensures
        search_results(tracks, query, filter) == search_results(tracks, other, filter),
{
}

/// A query finds what it finds without the white space around it, and what it finds in lower case.
pub proof fn law_search_forms(tracks: Seq<Track>, query: Seq<char>, filter: i32)
    ensures
        search_results(tracks, trimmed(query), filter) == search_results(tracks, query, filter),
        search_results(tracks, ascii_folded(query), filter) == search_results(
            tracks,
            query,
            filter,
        ),
{
    law_trimmed_once(query);
    law_trimmed_folded(query);
    law_folded_once(trimmed(query));
}

/// A search for music and one for speech together find as many tracks as a search for both.
pub proof fn law_search_counts(tracks: Seq<Track>, query: Seq<char>)
    ensures
        search_results(tracks, query, 0).len() == search_results(tracks, query, 1).len()
            + search_results(tracks, query, 2).len(),
{
    law_search_categories(tracks, query);
    lemma_split(search_results(tracks, query, 0));
}

proof fn lemma_split(tracks: Seq<Track>)
    ensures
        tracks.len() == tracks.filter(|t: Track| !t.is_voice).len() + tracks.filter(
            |t: Track| t.is_voice,
        ).len(),
    decreases tracks.len(),
{
    reveal(Seq::filter);
    if tracks.len() > 0 {
        lemma_split(tracks.drop_last());
    }
}

/// In the sort mode by title the songs stand as their lowercase titles stand in a dictionary, songs
/// with one lowercase title as they were given. No song is lost and none is added.
pub proof fn law_songs_stand_by_title(tracks: Seq<Track>)
    requires
        tracks.len() <= usize::MAX,
    ensures
        sorted_stably(
            tracks,
            in_sort_mode(tracks, 0),
            |a: Track, b: Track| precedes(lowercase(a.title@), lowercase(b.title@)),
        ),
{
    let before = |a: Track, b: Track| precedes(lowercase(a.title@), lowercase(b.title@));
    let keys = title_keys(tracks);
    assert forall|i: int, j: int|
        0 <= i < tracks.len() && 0 <= j < tracks.len() implies #[trigger] before(
        tracks[i],
        tracks[j],
    ) == lex_less(keys[i], keys[j]) by {
        law_texts_compare(lowercase(tracks[i].title@), lowercase(tracks[j].title@));
    }
    lemma_ordered_is_sorted(tracks, keys, false, before);
}

/// The tracks of an album are those tracks whose album has that name, in the order of the library,
/// and the tracks of an artist are those whose artist has that name. The tracks on albums are those
/// whose album has a name.
pub proof fn law_tracks_of_a_name(tracks: Seq<Track>, name: String)
    ensures
        lists_those(tracks, tracks_of_album(tracks, name@), |t: Track| t.album@ == name@),
        lists_those(tracks, tracks_of_artist(tracks, name@), |t: Track| t.artist@ == name@),
        lists_those(tracks, on_albums(tracks), |t: Track| t.album@.len() > 0),
{
    let of_album = |t: Track| t.album@ == name@;
    let of_artist = |t: Track| t.artist@ == name@;
    let on_album = |t: Track| t.album@.len() > 0;
    lemma_filter_lists(tracks, of_album, of_album);
    lemma_filter_lists(tracks, of_artist, of_artist);
    lemma_filter_lists(tracks, on_album, on_album);
}

/// The albums stand as their lowercase names stand in a dictionary. Of two albums with one
/// lowercase name the one that the tracks come to first stands first.
pub proof fn law_albums_stand_by_name(tracks: Seq<Track>, albums: Seq<AlbumEntry>, i: int, j: int)
    requires
        tracks.len() <= usize::MAX,
        indexes_albums(tracks, albums),
        0 <= i < j < albums.len(),
    ensures
        ({
            let a = lowercase(albums[i].name@);
            let b = lowercase(albums[j].name@);
            ||| precedes(a, b)
            ||| a == b && exists|p: int|
                {
                    &&& 0 <= p < tracks.len()
                    &&& (#[trigger] tracks[p]).album@ == albums[i].name@
                    &&& forall|q: int|
                        0 <= q <= p ==> (#[trigger] tracks[q]).album@ != albums[j].name@
                }
        }),
{
    let found = choose|found: Seq<AlbumEntry>|
        {
            &&& #[trigger] lists_albums(on_albums(tracks), found)
            &&& albums == ordered_by(found, album_name_keys(found), false)
        };
    let named = |t: Track| t.album@.len() > 0;
    let rows = on_albums(tracks);
    let places = lemma_filter_picks(tracks, named);
    lemma_filter_places(tracks, named);
    let keys = album_keys(rows);
    let firsts = first_indices(keys);
    lemma_first_indices(keys);
    let by = album_name_keys(found);
    lemma_order_contains(found, by, false);
    let order = stable_order(by, false);
    let a = order[i] as int;
    let b = order[j] as int;
    assert(order[i] < found.len() && order[j] < found.len());
    assert(albums[i] == found[a] && albums[j] == found[b]);
    assert(ranks_before(by, false, order[i], order[j]));
    law_texts_compare(lowercase(albums[i].name@), lowercase(albums[j].name@));
    if by[a] == by[b] {
        assert(a < b);
        assert(firsts[a] < firsts[b]);
        assert(firsts[a] < keys.len() && firsts[b] < keys.len());
        let r = firsts[a] as int;
        let p = places[r];
        assert(found[a].name == rows[r].album);
        assert(found[b].name == rows[firsts[b] as int].album);
        assert(tracks[p] == rows[r]);
        assert(named(tracks[places[firsts[b] as int]]));
        assert forall|q: int| 0 <= q <= p implies (#[trigger] tracks[q]).album@
            != albums[j].name@ by {
            if tracks[q].album@ == albums[j].name@ {
                assert(named(tracks[q]));
                assert(places.contains(q));
                let m = choose|m: int| 0 <= m < places.len() && places[m] == q;
                if m > r {
                    assert(places[r] < places[m]);
                }
                assert(rows[m] == tracks[q]);
                assert(keys[m] == keys[firsts[b] as int]);
                assert(m < firsts[b]);
                assert(false);
            }
        }
    }
}

/// The artists stand as their lowercase names stand in a dictionary. Of two artists with one
/// lowercase name the one that the tracks come to first stands first.
pub proof fn law_artists_stand_by_name(
    tracks: Seq<Track>,
    artists: Seq<ArtistEntry>,
    i: int,
    j: int,
)
    requires
        tracks.len() <= usize::MAX,
        indexes_artists(tracks, artists),
        0 <= i < j < artists.len(),
    ensures
        ({
            let a = lowercase(artists[i].name@);
            let b = lowercase(artists[j].name@);
            ||| precedes(a, b)
            ||| a == b && exists|p: int|
                {
                    &&& 0 <= p < tracks.len()
                    &&& (#[trigger] tracks[p]).artist@ == artists[i].name@
                    &&& forall|q: int|
                        0 <= q <= p ==> (#[trigger] tracks[q]).artist@ != artists[j].name@
                }
        }),
{
    let found = choose|found: Seq<ArtistEntry>|
        {
            &&& #[trigger] lists_artists(tracks, found)
            &&& artists == ordered_by(found, artist_name_keys(found), false)
        };
    let keys = artist_keys(tracks);
    let firsts = first_indices(keys);
    lemma_first_indices(keys);
    let by = artist_name_keys(found);
    lemma_order_contains(found, by, false);
    let order = stable_order(by, false);
    let a = order[i] as int;
    let b = order[j] as int;
    assert(order[i] < found.len() && order[j] < found.len());
    assert(artists[i] == found[a] && artists[j] == found[b]);
    assert(ranks_before(by, false, order[i], order[j]));
    law_texts_compare(lowercase(artists[i].name@), lowercase(artists[j].name@));
    if by[a] == by[b] {
        assert(firsts[a] < firsts[b]);
        assert(firsts[a] < keys.len() && firsts[b] < keys.len());
        let p = firsts[a] as int;
        assert(found[a].name == tracks[p].artist);
        assert(found[b].name == tracks[firsts[b] as int].artist);
        assert forall|q: int| 0 <= q <= p implies (#[trigger] tracks[q]).artist@
            != artists[j].name@ by {
            if tracks[q].artist@ == artists[j].name@ {
                assert(keys[q] == keys[firsts[b] as int]);
                assert(false);
            }
        }
    }
}

/// A search finds, in the order of the library, those tracks of the category of which the lowercase
/// query is a piece of the lowercase title, artist or album, from some position on, and no others.
/// A filter of 1 leaves speech out, one of 2 leaves music out. An empty query finds nothing.
pub proof fn law_search_looks_at_every_position(tracks: Seq<Track>, query: Seq<char>, filter: i32)
    ensures
        ({
            let q = lowercase(trimmed(query));
            let found = search_results(tracks, query, filter);
            &&& q.len() == 0 ==> found.len() == 0
            &&& q.len() > 0 ==> lists_those(
                tracks,
                found,
                |t: Track|
                    {
                        &&& filter == 1 ==> !t.is_voice
                        &&& filter == 2 ==> t.is_voice
                        &&& {
                            ||| stands_in(q, lowercase(t.title@))
                            ||| stands_in(q, lowercase(t.artist@))
                            ||| stands_in(q, lowercase(t.album@))
                        }
                    },
            )
        }),
{
    let q = lowercase(trimmed(query));
    if q.len() > 0 {
        let keep = |t: Track| answers(t, q) && in_category(t, filter);
        let direct = |t: Track|
            {
                &&& filter == 1 ==> !t.is_voice
                &&& filter == 2 ==> t.is_voice
                &&& {
                    ||| stands_in(q, lowercase(t.title@))
                    ||| stands_in(q, lowercase(t.artist@))
                    ||| stands_in(q, lowercase(t.album@))
                }
            };
        assert forall|i: int| 0 <= i < tracks.len() implies keep(#[trigger] tracks[i]) == direct(
            tracks[i],
        ) by {
            law_substring_is_a_piece(lowercase(tracks[i].title@), q);
            law_substring_is_a_piece(lowercase(tracks[i].artist@), q);
            law_substring_is_a_piece(lowercase(tracks[i].album@), q);
        }
        lemma_filter_lists(tracks, keep, direct);
    }
}

/// A track of the library is found exactly where the lowercase query stands at some position of its
/// lowercase title, artist or album, and it is of the category.
pub proof fn law_track_is_found(tracks: Seq<Track>, query: Seq<char>, filter: i32, i: int)
    requires
        0 <= i < tracks.len(),
        lowercase(trimmed(query)).len() > 0,
    ensures
        ({
            let q = lowercase(trimmed(query));
            let t = tracks[i];
            let at = |text: Seq<char>|
                exists|from: int, to: int|
                    0 <= from <= to <= text.len() && #[trigger] text.subrange(from, to) == q;
            search_results(tracks, query, filter).contains(t) <==> {
                &&& at(lowercase(t.title@)) || at(lowercase(t.artist@)) || at(lowercase(t.album@))
                &&& filter == 1 ==> !t.is_voice
                &&& filter == 2 ==> t.is_voice
            }
        }),
{
    let q = lowercase(trimmed(query));
    law_search_finds_what_answers(tracks, query, filter, tracks[i]);
    law_substring_is_a_piece(lowercase(tracks[i].title@), q);
    law_substring_is_a_piece(lowercase(tracks[i].artist@), q);
    law_substring_is_a_piece(lowercase(tracks[i].album@), q);
}

} // verus!
