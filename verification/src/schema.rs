//! The columns that a database file of an earlier version lacks.

use vstd::prelude::*;

use crate::playlists::text_views;

verus! {

/// A column to be added to the playback history.
pub enum Migration {
    /// The path of the played file.
    AddPath,
    /// The album of the played track.
    AddAlbum,
}

/// The name of the column that a migration adds.
pub open spec fn added_column(m: Migration) -> Seq<char> {
    match m {
        Migration::AddPath => "caminho_mp3"@,
        Migration::AddAlbum => "album"@,
    }
}

/// The migrations that a history with the given columns needs, in order.
pub open spec fn needed(columns: Seq<Seq<char>>) -> Seq<Migration> {
    (if columns.contains("caminho_mp3"@) {
        Seq::empty()
    } else {
        seq![Migration::AddPath]
    }) + (if columns.contains("album"@) {
        Seq::empty()
    } else {
        seq![Migration::AddAlbum]
    })
}

/// The columns after migrations.
pub open spec fn migrated(columns: Seq<Seq<char>>, migrations: Seq<Migration>) -> Seq<Seq<char>> {
    columns + migrations.map_values(|m: Migration| added_column(m))
}

fn has_column(columns: &Vec<String>, name: &str) -> (b: bool)
    ensures
        b == text_views(columns@).contains(name@),
{
    let wanted: String = name.to_owned();
    let mut i: usize = 0;
    while i < columns.len()
        invariant
            i <= columns.len(),
            wanted@ == name@,
            forall|k: int| 0 <= k < i ==> (#[trigger] columns@[k])@ != name@,
        decreases columns.len() - i,
    {
        if columns[i] == wanted {
            assert(text_views(columns@)[i as int] == name@);
            return true;
        }
        i = i + 1;
    }
    proof {
        if text_views(columns@).contains(name@) {
            let k = choose|k: int|
                0 <= k < columns@.len() && text_views(columns@)[k] == name@;
            assert(columns@[k]@ == name@);
        }
    }
    false
}

/// Tells which columns the playback history lacks, from the names of those that it has.
pub fn needed_migrations(columns: &Vec<String>) -> (r: Vec<Migration>)
    ensures
        r@ == needed(text_views(columns@)),
{
    let mut r: Vec<Migration> = Vec::new();
    if !has_column(columns, "caminho_mp3") {
        r.push(Migration::AddPath);
    }
    if !has_column(columns, "album") {
        r.push(Migration::AddAlbum);
    }
    assert(r@ =~= needed(text_views(columns@)));
    r
}

/// Once migrated, a file needs no further migration, and no column is lost.
pub proof fn law_migrates_once(columns: Seq<Seq<char>>)
    ensures
        needed(migrated(columns, needed(columns))) == Seq::<Migration>::empty(),
        migrated(columns, needed(columns)).take(columns.len() as int) == columns,
{
    let done = migrated(columns, needed(columns));
    let n = columns.len() as int;
    assert(done.take(n) =~= columns);
    if columns.contains("caminho_mp3"@) {
        let k = choose|k: int| 0 <= k < n && columns[k] == "caminho_mp3"@;
        assert(done[k] == "caminho_mp3"@);
    } else {
        assert(needed(columns)[0] is AddPath);
        assert(done[n] == "caminho_mp3"@);
    }
    if columns.contains("album"@) {
        let k = choose|k: int| 0 <= k < n && columns[k] == "album"@;
        assert(done[k] == "album"@);
    } else {
        let last = needed(columns).len() - 1;
        assert(needed(columns)[last] is AddAlbum);
        assert(done[n + last] == "album"@);
    }
    assert(needed(done) =~= Seq::<Migration>::empty());
}

/// A column is added only where it is missing.
pub proof fn law_adds_what_is_missing(columns: Seq<Seq<char>>, i: int)
    requires
        0 <= i < needed(columns).len(),
    ensures
        !columns.contains(added_column(needed(columns)[i])),
{
}

/// A history gets the column of the path exactly where it lacks it, and the column of the album
/// exactly where it lacks that, the path first, and no other column.
pub proof fn law_missing_columns_are_added(columns: Seq<Seq<char>>)
    ensures
        ({
            let path = columns.contains("caminho_mp3"@);
            let album = columns.contains("album"@);
            &&& path && album ==> needed(columns).len() == 0
            &&& !path && album ==> needed(columns) == seq![Migration::AddPath]
            &&& path && !album ==> needed(columns) == seq![Migration::AddAlbum]
            &&& !path && !album ==> needed(columns) == seq![
                Migration::AddPath,
                Migration::AddAlbum,
            ]
        }),
        added_column(Migration::AddPath) == "caminho_mp3"@,
        added_column(Migration::AddAlbum) == "album"@,
{
    if !columns.contains("caminho_mp3"@) && !columns.contains("album"@) {
        assert(needed(columns) =~= seq![Migration::AddPath, Migration::AddAlbum]);
    } else if !columns.contains("caminho_mp3"@) {
        assert(needed(columns) =~= seq![Migration::AddPath]);
    } else if !columns.contains("album"@) {
        assert(needed(columns) =~= seq![Migration::AddAlbum]);
    }
}

} // verus!
