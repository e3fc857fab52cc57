//! The store beside a SQLite database that goes through the same changes.

use ohm_player::db::Db;
use ohm_player::db::Snapshot;
use ohm_player::history::day_offsets;
use ohm_player::history::StatRow;
use ohm_player::tables::AccessRecord;
use ohm_player::tables::Change;
use ohm_player::tables::EntryRecord;
use ohm_player::tables::Moment;
use ohm_player::tables::PlayRecord;
use ohm_player::tables::PlaylistRecord;
use ohm_player::tables::SettingRecord;
use rusqlite::Connection;

const SCHEMA: &str = "
    PRAGMA foreign_keys = ON;
    CREATE TABLE playlists (
        id INTEGER PRIMARY KEY AUTOINCREMENT,
        nome TEXT NOT NULL,
        caminho_capa_customizada TEXT
    );
    CREATE TABLE playlist_musicas (
        playlist_id INTEGER NOT NULL REFERENCES playlists(id) ON DELETE CASCADE,
        caminho_mp3 TEXT NOT NULL,
        posicao_ordem INTEGER NOT NULL
    );
    CREATE TABLE historico_reproducao (
        id INTEGER PRIMARY KEY AUTOINCREMENT,
        titulo TEXT NOT NULL,
        artista TEXT NOT NULL,
        caminho_mp3 TEXT,
        data_reproducao TEXT NOT NULL DEFAULT (datetime('now', 'localtime')),
        album TEXT NOT NULL DEFAULT ''
    );
    CREATE TABLE playlist_last_accessed (
        playlist_id INTEGER PRIMARY KEY REFERENCES playlists(id) ON DELETE CASCADE,
        last_played TEXT NOT NULL DEFAULT (datetime('now', 'localtime'))
    );
    CREATE TABLE settings (key TEXT PRIMARY KEY, value TEXT NOT NULL);";

fn database() -> Connection {
    let conn = Connection::open_in_memory().unwrap();
    conn.execute_batch(SCHEMA).unwrap();
    conn
}

fn sequence(conn: &Connection, table: &str) -> i64 {
    conn.query_row("SELECT seq FROM sqlite_sequence WHERE name = ?1", [table], |r| r.get(0))
        .unwrap_or(0)
}

fn snapshot(conn: &Connection) -> Snapshot {
    let mut stmt = conn
        .prepare("SELECT id, nome, caminho_capa_customizada FROM playlists ORDER BY id")
        .unwrap();
    let playlists: Vec<PlaylistRecord> = stmt
        .query_map([], |r| {
            Ok(PlaylistRecord { id: r.get(0)?, name: r.get(1)?, cover: r.get(2)? })
        })
        .unwrap()
        .map(|r| r.unwrap())
        .collect();
    let mut stmt = conn
        .prepare(
            "SELECT rowid, playlist_id, caminho_mp3, posicao_ordem FROM playlist_musicas
             ORDER BY rowid",
        )
        .unwrap();
    let entries: Vec<EntryRecord> = stmt
        .query_map([], |r| {
            Ok(EntryRecord {
                rowid: r.get(0)?,
                playlist_id: r.get(1)?,
                path: r.get(2)?,
                position: r.get(3)?,
            })
        })
        .unwrap()
        .map(|r| r.unwrap())
        .collect();
    let mut stmt = conn
        .prepare(
            "SELECT id, titulo, artista, album, caminho_mp3, data_reproducao,
                    date(data_reproducao)
             FROM historico_reproducao ORDER BY id",
        )
        .unwrap();
    let history: Vec<PlayRecord> = stmt
        .query_map([], |r| {
            Ok(PlayRecord {
                id: r.get(0)?,
                title: r.get(1)?,
                artist: r.get(2)?,
                album: r.get(3)?,
                path: r.get(4)?,
                date: r.get(5)?,
                day: r.get(6)?,
            })
        })
        .unwrap()
        .map(|r| r.unwrap())
        .collect();
    let mut stmt =
        conn.prepare("SELECT playlist_id, last_played FROM playlist_last_accessed").unwrap();
    let accessed: Vec<AccessRecord> = stmt
        .query_map([], |r| {
            Ok(AccessRecord { playlist_id: r.get(0)?, last_played: r.get(1)? })
        })
        .unwrap()
        .map(|r| r.unwrap())
        .collect();
    let mut stmt = conn.prepare("SELECT key, value FROM settings").unwrap();
    let settings: Vec<SettingRecord> = stmt
        .query_map([], |r| Ok(SettingRecord { key: r.get(0)?, value: r.get(1)? }))
        .unwrap()
        .map(|r| r.unwrap())
        .collect();
    Snapshot {
        playlists,
        playlist_seq: sequence(conn, "playlists"),
        entries,
        history,
        history_seq: sequence(conn, "historico_reproducao"),
        accessed,
        settings,
    }
}

fn open(conn: &Connection) -> Db {
    match Db::open(snapshot(conn)) {
        Ok(db) => db,
        Err(_) => panic!("the rows of a database are well formed"),
    }
}

fn carry_out(conn: &Connection, change: Change) {
    match change {
        Change::InsertPlaylist { id, name } => {
            conn.execute("INSERT INTO playlists (nome) VALUES (?1)", [name]).unwrap();
            assert_eq!(conn.last_insert_rowid(), id);
        }
        Change::DeletePlaylist { id } => {
            conn.execute("DELETE FROM playlists WHERE id = ?1", [id]).unwrap();
        }
        Change::RenamePlaylist { id, name } => {
            conn.execute("UPDATE playlists SET nome = ?1 WHERE id = ?2", (name, id)).unwrap();
        }
        Change::SetCover { id, cover } => {
            conn.execute(
                "UPDATE playlists SET caminho_capa_customizada = ?1 WHERE id = ?2",
                (cover, id),
            )
            .unwrap();
        }
        Change::InsertEntry { entry } => {
            conn.execute(
                "INSERT INTO playlist_musicas (playlist_id, caminho_mp3, posicao_ordem)
                 VALUES (?1, ?2,
                         (SELECT COALESCE(MAX(posicao_ordem), -1) + 1
                          FROM playlist_musicas WHERE playlist_id = ?1))",
                (entry.playlist_id, entry.path),
            )
            .unwrap();
            assert_eq!(conn.last_insert_rowid(), entry.rowid);
        }
        Change::DeleteEntry { rowid } => {
            conn.execute("DELETE FROM playlist_musicas WHERE rowid = ?1", [rowid]).unwrap();
        }
        Change::SetPositions { rowids } => {
            for (position, rowid) in rowids.iter().enumerate() {
                conn.execute(
                    "UPDATE playlist_musicas SET posicao_ordem = ?1 WHERE rowid = ?2",
                    (position as i64, rowid),
                )
                .unwrap();
            }
        }
        Change::InsertPlay { play } => {
            conn.execute(
                "INSERT INTO historico_reproducao
                 (titulo, artista, album, caminho_mp3, data_reproducao)
                 VALUES (?1, ?2, ?3, ?4, ?5)",
                (play.title, play.artist, play.album, play.path, play.date),
            )
            .unwrap();
            assert_eq!(conn.last_insert_rowid(), play.id);
        }
        Change::SetAccessed { playlist_id, last_played } => {
            conn.execute(
                "INSERT OR REPLACE INTO playlist_last_accessed (playlist_id, last_played)
                 VALUES (?1, ?2)",
                (playlist_id, last_played),
            )
            .unwrap();
        }
        Change::SetSetting { key, value } => {
            conn.execute(
                "INSERT OR REPLACE INTO settings (key, value) VALUES (?1, ?2)",
                (key, value),
            )
            .unwrap();
        }
    }
}

fn bring_up_to_date(conn: &Connection, db: &mut Db) {
    for change in db.take_changes() {
        carry_out(conn, change);
    }
}

fn texts(conn: &Connection, sql: &str) -> Vec<String> {
    let mut stmt = conn.prepare(sql).unwrap();
    let rows = stmt.query_map([], |r| r.get(0)).unwrap();
    rows.map(|r| r.unwrap()).collect()
}

fn number(conn: &Connection, sql: &str) -> i64 {
    conn.query_row(sql, [], |r| r.get(0)).unwrap()
}

fn ranking(conn: &Connection, sql: &str, limit: i64) -> Vec<(String, i64)> {
    let mut stmt = conn.prepare(sql).unwrap();
    let rows = stmt.query_map([limit], |r| Ok((r.get(0)?, r.get(1)?))).unwrap();
    rows.map(|r| r.unwrap()).collect()
}

fn pairs(rows: Vec<StatRow>) -> Vec<(String, i64)> {
    rows.into_iter().map(|r| (r.name, r.count)).collect()
}

fn moment(stamp: &str) -> Moment {
    Moment { stamp: stamp.to_string(), day: stamp[..10].to_string() }
}

/// Numbers that look random, the same in every run.
struct Dice(u64);

impl Dice {
    fn roll(&mut self, sides: u64) -> u64 {
        self.0 = self.0.wrapping_mul(6364136223846793005).wrapping_add(1442695040888963407);
        (self.0 >> 33) % sides
    }
}

const NAMES: [&str; 14] = [
    "zebra", "Alpha", "alpha", "Ärger", "ärger", "beta", "", "B", "Zoo", "ção", "b\0z", "B\0aa",
    "b\0é", "\0",
];

/// A store that went through many operations, and the database that went along.
fn exercised(seed: u64, steps: u64) -> (Connection, Db) {
    let conn = database();
    let mut db = open(&conn);
    let mut dice = Dice(seed);
    for step in 0..steps {
        let id = 1 + dice.roll(6) as i64;
        let name = NAMES[dice.roll(14) as usize];
        let path = format!("/p{}.mp3", dice.roll(7));
        let now = format!(
            "2024-0{}-1{} 1{}:00:0{}",
            1 + dice.roll(3),
            dice.roll(4),
            dice.roll(3),
            dice.roll(10)
        );
        match dice.roll(12) {
            0 => {
                db.create_playlist(name).ok().unwrap();
            }
            1 => {
                if dice.roll(4) == 0 {
                    db.delete_playlist(id);
                }
            }
            2 => db.rename_playlist(id, name),
            3 => db.set_playlist_cover(id, &path),
            4 | 5 => {
                let _ = db.add_song(id, &path);
            }
            6 => {
                db.remove_song(id, dice.roll(4) as usize);
            }
            7 => {
                db.move_song(id, dice.roll(4) as usize, dice.roll(4) as usize);
            }
            8 => {
                let _ = db.track_playlist_access(id, &now);
            }
            9 => db.set_setting(name, &path),
            10 => db.add_scrobble(name, NAMES[dice.roll(4) as usize], &moment(&now)).ok().unwrap(),
            _ => {
                let artist = NAMES[dice.roll(5) as usize];
                let album = NAMES[dice.roll(8) as usize];
                db.add_scrobble_with_path(name, artist, album, &path, &moment(&now)).ok().unwrap();
            }
        }
        if step % 5 == 0 {
            bring_up_to_date(&conn, &mut db);
        }
    }
    bring_up_to_date(&conn, &mut db);
    (conn, db)
}

fn same_rows(a: &Snapshot, b: &Snapshot) {
    assert_eq!(a.playlist_seq, b.playlist_seq);
    assert_eq!(a.history_seq, b.history_seq);
    assert_eq!(a.playlists.len(), b.playlists.len());
    for (x, y) in a.playlists.iter().zip(b.playlists.iter()) {
        assert_eq!((x.id, &x.name, &x.cover), (y.id, &y.name, &y.cover));
    }
    assert_eq!(a.entries.len(), b.entries.len());
    for (x, y) in a.entries.iter().zip(b.entries.iter()) {
        assert_eq!(
            (x.rowid, x.playlist_id, &x.path, x.position),
            (y.rowid, y.playlist_id, &y.path, y.position)
        );
    }
    assert_eq!(a.history.len(), b.history.len());
    for (x, y) in a.history.iter().zip(b.history.iter()) {
        assert_eq!((x.id, &x.title, &x.artist), (y.id, &y.title, &y.artist));
        assert_eq!((&x.album, &x.path, &x.date, &x.day), (&y.album, &y.path, &y.date, &y.day));
    }
    let mut one: Vec<(i64, &String)> =
        a.accessed.iter().map(|r| (r.playlist_id, &r.last_played)).collect();
    let mut two: Vec<(i64, &String)> =
        b.accessed.iter().map(|r| (r.playlist_id, &r.last_played)).collect();
    one.sort();
    two.sort();
    assert_eq!(one, two);
    let mut one: Vec<(&String, &String)> = a.settings.iter().map(|r| (&r.key, &r.value)).collect();
    let mut two: Vec<(&String, &String)> = b.settings.iter().map(|r| (&r.key, &r.value)).collect();
    one.sort();
    two.sort();
    assert_eq!(one, two);
}

#[test]
fn changes_carried_out_give_the_same_tables() {
    for seed in 1..9 {
        let (conn, mut db) = exercised(seed, 300);
        same_rows(&snapshot(&conn), db.rows());
        }
}

#[test]
fn playlists_are_listed_as_the_database_lists_them() {
    for seed in 1..9 {
        let (conn, db) = exercised(seed, 200);
        let mut stmt = conn
            .prepare(
                "SELECT p.id, p.nome, p.caminho_capa_customizada,
                        (SELECT COUNT(*) FROM playlist_musicas m WHERE m.playlist_id = p.id)
                 FROM playlists p ORDER BY p.nome COLLATE NOCASE",
            )
            .unwrap();
        let expected: Vec<(i64, String, Option<String>, i64)> = stmt
            .query_map([], |r| Ok((r.get(0)?, r.get(1)?, r.get(2)?, r.get(3)?)))
            .unwrap()
            .map(|r| r.unwrap())
            .collect();
        let listed: Vec<(i64, String, Option<String>, i64)> = db
            .list_playlists()
            .into_iter()
            .map(|p| (p.id, p.name, p.cover, p.song_count))
            .collect();
        assert_eq!(listed, expected);
    }
}

#[test]
fn songs_are_read_as_the_database_reads_them() {
    for seed in 1..9 {
        let (conn, db) = exercised(seed, 300);
        for id in 0..8 {
            let sql = format!(
                "SELECT caminho_mp3 FROM playlist_musicas
                 WHERE playlist_id = {id} ORDER BY posicao_ordem"
            );
            assert_eq!(db.get_songs(id), texts(&conn, &sql));
        }
    }
}

#[test]
fn recent_playlists_are_those_of_the_database() {
    for seed in 1..9 {
        let (conn, db) = exercised(seed, 300);
        for limit in [-1, 0, 1, 3, 50] {
            let mut stmt = conn
                .prepare(
                    "SELECT p.id, p.nome FROM playlists p
                     LEFT JOIN playlist_last_accessed pla ON p.id = pla.playlist_id
                     ORDER BY pla.last_played DESC LIMIT ?1",
                )
                .unwrap();
            let expected: Vec<(i64, String)> = stmt
                .query_map([limit], |r| Ok((r.get(0)?, r.get(1)?)))
                .unwrap()
                .map(|r| r.unwrap())
                .collect();
            assert_eq!(db.recent_playlists(limit), expected, "{seed} {limit}");
        }
    }
}

#[test]
fn recent_songs_are_those_of_the_database() {
    for seed in 1..9 {
        let (conn, db) = exercised(seed, 300);
        for limit in [-1, 0, 1, 5, 100] {
            let mut stmt = conn
                .prepare(
                    "SELECT DISTINCT titulo, artista, caminho_mp3 FROM historico_reproducao
                     WHERE caminho_mp3 IS NOT NULL
                     ORDER BY id DESC LIMIT ?1",
                )
                .unwrap();
            let expected: Vec<(String, String, String)> = stmt
                .query_map([limit], |r| Ok((r.get(0)?, r.get(1)?, r.get(2)?)))
                .unwrap()
                .map(|r| r.unwrap())
                .collect();
            assert_eq!(db.recent_songs(limit), expected, "{seed} {limit}");
        }
    }
}

#[test]
fn scrobbles_are_those_of_the_database() {
    let (conn, db) = exercised(3, 300);
    for limit in [-1, 0, 4, 1000] {
        let mut stmt = conn
            .prepare(
                "SELECT titulo, artista, album, data_reproducao
                 FROM historico_reproducao ORDER BY id DESC LIMIT ?1",
            )
            .unwrap();
        let expected: Vec<(String, String, String, String)> = stmt
            .query_map([limit], |r| Ok((r.get(0)?, r.get(1)?, r.get(2)?, r.get(3)?)))
            .unwrap()
            .map(|r| r.unwrap())
            .collect();
        let rows: Vec<(String, String, String, String)> = db
            .recent_scrobbles(limit)
            .into_iter()
            .map(|s| (s.title, s.artist, s.album, s.date))
            .collect();
        assert_eq!(rows, expected);
    }
}

#[test]
fn rankings_are_those_of_the_database() {
    for seed in 1..9 {
        let (conn, db) = exercised(seed, 300);
        for limit in [-1, 0, 2, 5, 1000] {
            assert_eq!(
                pairs(db.top_artists(limit)),
                ranking(
                    &conn,
                    "SELECT artista, COUNT(*) AS c FROM historico_reproducao
                     GROUP BY artista ORDER BY c DESC LIMIT ?1",
                    limit
                )
            );
            assert_eq!(
                pairs(db.top_tracks(limit)),
                ranking(
                    &conn,
                    "SELECT titulo || ' — ' || artista, COUNT(*) AS c FROM historico_reproducao
                     GROUP BY titulo, artista ORDER BY c DESC LIMIT ?1",
                    limit
                )
            );
            assert_eq!(
                pairs(db.top_albums(limit)),
                ranking(
                    &conn,
                    "SELECT album, COUNT(*) AS c FROM historico_reproducao
                     WHERE album != '' GROUP BY album ORDER BY c DESC LIMIT ?1",
                    limit
                )
            );
        }
    }
}

#[test]
fn totals_are_those_of_the_database() {
    let (conn, db) = exercised(5, 300);
    assert_eq!(db.total_plays(), number(&conn, "SELECT COUNT(*) FROM historico_reproducao"));
    assert_eq!(
        db.unique_artists(),
        number(&conn, "SELECT COUNT(DISTINCT artista) FROM historico_reproducao")
    );
    for day in ["2024-01-10", "2024-02-13", "2024-03-11", "2025-01-01"] {
        let sql = format!(
            "SELECT COUNT(*) FROM historico_reproducao WHERE date(data_reproducao) = '{day}'"
        );
        assert_eq!(db.plays_today(day), number(&conn, &sql));
    }
}

#[test]
fn plays_per_day_are_those_of_the_database() {
    let (conn, mut db) = exercised(6, 50);
    for offset in [0, 0, 1, 3, 3, 3, 6, 7] {
        let sql = format!("SELECT datetime('now', 'localtime', '-{offset} days')");
        let now: String = conn.query_row(&sql, [], |r| r.get(0)).unwrap();
        db.add_scrobble("t", "a", &moment(&now)).ok().unwrap();
    }
    bring_up_to_date(&conn, &mut db);
    for days in [1, 7, 10] {
        let dates: Vec<String> = day_offsets(days)
            .unwrap()
            .into_iter()
            .map(|n| {
                conn.query_row("SELECT date('now', 'localtime', '-' || ?1 || ' days')", [n], |r| {
                    r.get(0)
                })
                .unwrap()
            })
            .collect();
        let expected = ranking(
            &conn,
            "WITH RECURSIVE seq(n) AS (SELECT 0 UNION ALL SELECT n + 1 FROM seq WHERE n < ?1 - 1)
             SELECT strftime('%d/%m', date('now', 'localtime', '-' || (?1 - 1 - n) || ' days')),
                    (SELECT COUNT(*) FROM historico_reproducao
                     WHERE date(data_reproducao)
                         = date('now', 'localtime', '-' || (?1 - 1 - n) || ' days'))
             FROM seq",
            days,
        );
        assert_eq!(pairs(db.plays_per_day(&dates)), expected);
    }
    assert!(day_offsets(0).is_none());
    assert!(day_offsets(-2).is_none());
}

#[test]
fn library_paths_are_those_of_the_database() {
    for seed in 1..9 {
        let (conn, db) = exercised(seed, 300);
        let added = "SELECT caminho_mp3 FROM playlist_musicas
                     GROUP BY caminho_mp3 ORDER BY MIN(rowid)";
        assert_eq!(db.library_paths(0), texts(&conn, added));
        assert_eq!(db.library_paths(9), texts(&conn, added));
        assert_eq!(db.library_paths(1), texts(&conn, &format!("{added} DESC")));
        assert_eq!(
            db.library_paths(2),
            texts(
                &conn,
                "SELECT m.caminho_mp3 FROM playlist_musicas m
                 LEFT JOIN (SELECT caminho_mp3, MAX(id) AS last FROM historico_reproducao
                            WHERE caminho_mp3 IS NOT NULL GROUP BY caminho_mp3) h
                     ON h.caminho_mp3 = m.caminho_mp3
                 GROUP BY m.caminho_mp3
                 ORDER BY h.last IS NULL, h.last DESC"
            )
        );
    }
}

#[test]
fn settings_are_those_of_the_database() {
    let (conn, db) = exercised(7, 300);
    for key in NAMES {
        let expected: Option<String> = conn
            .query_row("SELECT value FROM settings WHERE key = ?1", [key], |r| r.get(0))
            .ok();
        assert_eq!(db.get_setting(key), expected);
    }
}

#[test]
fn a_song_without_a_playlist_is_refused_as_the_database_refuses_it() {
    let conn = database();
    let mut db = open(&conn);
    assert!(db.add_song(4, "/x.mp3").is_err());
    let refused = conn.execute(
        "INSERT INTO playlist_musicas (playlist_id, caminho_mp3, posicao_ordem) VALUES (4, 'x', 0)",
        [],
    );
    assert!(refused.is_err());
    assert!(db.track_playlist_access(4, "2024-01-01 00:00:00").is_err());
    let refused = conn.execute(
        "INSERT OR REPLACE INTO playlist_last_accessed (playlist_id, last_played) VALUES (4, 'x')",
        [],
    );
    assert!(refused.is_err());
}

#[test]
fn days_are_those_that_the_database_reads() {
    let conn = database();
    for stamp in [
        "2024-03-01 10:00:00",
        "2024-02-30 10:00:00",
        "2024-02-29 23:30:00-02:00",
        "2024-03-02T00:10:00+01:00",
        "2024-03-01",
        "2024-03-01 10:00:00Z",
        "2024-03-01 10:00:00 or so",
        "2024-3-1",
        "yesterday",
        "",
    ] {
        conn.execute(
            "INSERT INTO historico_reproducao (titulo, artista, data_reproducao)
             VALUES ('t', 'a', ?1)",
            [stamp],
        )
        .unwrap();
    }
    let db = open(&conn);
    assert_eq!(db.plays_today("2024-03-01"), 6);
    for day in ["2024-02-29", "2024-03-01", "2024-03-02", "2024-02-30"] {
        let sql = format!(
            "SELECT COUNT(*) FROM historico_reproducao WHERE date(data_reproducao) = '{day}'"
        );
        assert_eq!(db.plays_today(day), number(&conn, &sql), "{day}");
    }
}

#[test]
fn numbers_follow_those_of_the_database() {
    let conn = database();
    conn.execute("INSERT INTO playlists (id, nome) VALUES (-4, 'x')", []).unwrap();
    conn.execute("INSERT INTO playlists (id, nome) VALUES (0, 'y')", []).unwrap();
    conn.execute(
        "INSERT INTO playlist_musicas (rowid, playlist_id, caminho_mp3, posicao_ordem)
         VALUES (-7, 0, '/a', 0)",
        [],
    )
    .unwrap();
    let mut db = open(&conn);
    db.create_playlist("z").ok().unwrap();
    db.add_song(0, "/b").ok().unwrap();
    bring_up_to_date(&conn, &mut db);
    same_rows(&snapshot(&conn), db.rows());
}

#[test]
fn names_with_a_nul_are_listed_as_the_database_lists_them() {
    let conn = database();
    let mut db = open(&conn);
    for name in ["b\0z", "B\0aa", "b\0é", "\0", "", "b", "b\u{1}", "ba", "b\0", "B\0\0", "a\0zzzz"] {
        db.create_playlist(name).ok().unwrap();
    }
    bring_up_to_date(&conn, &mut db);
    let expected = texts(&conn, "SELECT nome FROM playlists ORDER BY nome COLLATE NOCASE");
    let listed: Vec<String> = db.list_playlists().into_iter().map(|p| p.name).collect();
    assert_eq!(listed, expected);
}
