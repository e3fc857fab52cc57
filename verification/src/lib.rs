//! The queue, library and store logic of the Ohm music player.

pub mod cover;
pub mod db;
pub mod history;
pub mod history_laws;
pub mod library;
pub mod library_laws;
pub mod listing;
pub mod listing_laws;
pub mod order;
pub mod order_laws;
pub mod page_laws;
pub mod pages;
pub mod playback;
pub mod playback_laws;
pub mod player;
pub mod player_laws;
pub mod playlist_laws;
pub mod playlists;
pub mod relations;
pub mod schema;
pub mod settings;
pub mod tables;
pub mod tally;
pub mod tally_laws;
pub mod text;
pub mod text_laws;
pub mod track;
pub mod track_laws;
