# Ohm Player

A music player: a play queue, a library index with search, playlists, a listening
history with statistics, and settings that survive a restart. The logic is a library
written in Verus, in which every function carries a contract that is proved; the window,
the audio output and the database file stand around it.

## Layout

- `src/text.rs`, `src/track.rs`, `src/cover.rs` – texts, tracks and cover art
- `src/order.rs`, `src/tally.rs` – stable ordering and grouping of rows by keys
- `src/playback.rs`, `src/player.rs` – the queue, repeat, shuffle, crossfade and sleep timer,
  and the start of a track
- `src/library.rs` – songs, albums, artists and the search over them
- `src/tables.rs`, `src/db.rs` – the tables of the store and the changes to them
- `src/playlists.rs`, `src/listing.rs`, `src/history.rs`, `src/settings.rs`, `src/schema.rs` –
  the operations of the store
- `src/pages.rs` – what the pages show
- `src/*_laws.rs` – what holds across operations
- `app/` – the program: Slint window, rodio output, SQLite file, file dialogs
- `tests/` – tests, among them a comparison of the store with SQLite

## The store

`Db` holds the tables as they were read from the database file and a list of the changes made
since. The program reads a `Snapshot` of the file, runs operations on the `Db`, and carries out
what `take_changes` hands over. The contract of `Db` says that these changes lead from the tables
of the file to the tables in memory.

## What is not proved

Five calls out of the library are taken at their word, each in a small function that says
what is believed of it: `str::to_lowercase`, `str::to_ascii_lowercase`, `Path::file_stem`,
`image::load_from_memory` with `DynamicImage::into_rgba8`, and `rand`'s
`SliceRandom::shuffle`. The day of a history row is read by the database. Volumes and
fractions are floating point and belong to the program.

To run the program, enable one of Slint's backends, such as `backend-winit`.
