//! Starting playback: the chosen track, what is shown of it, and its scrobble.

use vstd::prelude::*;

use crate::db::Db;
use crate::db::DbError;
use crate::playback::queue_info_text;
use crate::playback::AudioState;
use crate::playback::PlayState;
use crate::playback::SECOND;
use crate::playlists::songs_of;
use crate::playlists::text_views;
use crate::tables::ChangeData;
use crate::tables::Moment;
use crate::tables::PlayData;
use crate::tables::Tables;
use crate::text::clock;
use crate::text::push_clock;
use crate::track::Track;

verus! {

/// What became of loading the chosen track.
pub enum LoadEvent {
    /// The file cannot be opened or decoded.
    Unreadable,
    /// The file was decoded, but the audio output did not take it. A duration of zero is unknown.
    NoOutput { duration: u128 },
    /// The track is playing. A duration of zero is unknown.
    Playing { duration: u128 },
}

/// What is shown of the playing track.
pub struct NowPlaying {
    pub title: String,
    pub artist: String,
    pub album: String,
    pub path: String,
    pub queue_info: String,
    pub duration_text: String,
}

impl NowPlaying {
    /// What is shown is what plays.
    pub open spec fn shows(self, s: PlayState) -> bool {
        let t = s.queue[s.index];
        &&& self.title == t.title
        &&& self.artist == t.artist
        &&& self.album == t.album
        &&& self.path == t.path
        &&& self.queue_info@ == queue_info_text(s)
        &&& self.duration_text@ == clock((s.duration / (SECOND as int)) as nat)
    }
}

/// The playback state once it is known what became of loading the chosen track.
pub open spec fn once_loaded(s: PlayState, event: LoadEvent) -> PlayState {
    if s.queue.len() == 0 {
        s
    } else {
        match event {
            LoadEvent::Unreadable => s,
            LoadEvent::NoOutput { duration } => PlayState { duration: duration as int, ..s },
            LoadEvent::Playing { duration } => PlayState {
                duration: duration as int,
                loaded: true,
                ..s
            },
        }
    }
}

/// The history row of a track that starts to play.
pub open spec fn scrobble_of(t: Tables, track: Track, now: Moment) -> PlayData {
    PlayData {
        id: (t.history_seq + 1) as i64,
        title: track.title@,
        artist: track.artist@,
        album: track.album@,
        path: Some(track.path@),
        date: now.stamp@,
        day: Some(now.day@),
    }
}

/// The duration of a track: what the decoder reports, else what counting its frames gives, else
/// unknown. Durations are in nanoseconds.
pub fn known_duration(reported: Option<u128>, counted: Option<u128>) -> (r: u128)
    ensures
        r == (match reported {
            Some(d) => d,
            None => match counted {
                Some(d) => d,
                None => 0,
            },
        }),
{
    match reported {
        Some(d) => d,
        None => match counted {
            Some(d) => d,
            None => 0,
        },
    }
}

/// Takes note of what became of loading the chosen track. Where it plays, it is scrobbled at the
/// time `now`, and what is to be shown of it is returned, with the outcome of the scrobble.
pub fn track_loaded(state: &mut AudioState, db: &mut Db, event: LoadEvent, now: &Moment) -> (r:
    Option<(NowPlaying, Result<(), DbError>)>)
    requires
        old(state).wf(),
        old(db).wf(),
    ensures
        final(state).wf(),
        final(db).wf(),
        final(state)@ == once_loaded(old(state)@, event),
        r is Some <==> old(state)@.queue.len() > 0 && event is Playing,
        r is None ==> final(db).after(old(db), None),
        (r matches Some((shown, scrobbled)) ==> {
            let track = old(state)@.queue[old(state)@.index];
            &&& shown.shows(final(state)@)
            &&& scrobbled is Ok <==> !old(db).tables().history_is_full()
            &&& scrobbled is Ok ==> final(db).after(
                old(db),
                Some(
                    ChangeData::InsertPlay { play: scrobble_of(old(db).tables(), track, *now) },
                ),
            )
            &&& scrobbled is Err ==> scrobbled->Err_0 is Full && final(db).after(old(db), None)
        }),
{
    if state.queue.len() == 0 {
        return None;
    }
    match event {
        LoadEvent::Unreadable => None,
        LoadEvent::NoOutput { duration } => {
            state.set_duration(duration);
            None
        },
        LoadEvent::Playing { duration } => {
            state.set_duration(duration);
            state.set_loaded();
            let track: Track = state.queue[state.index].clone();
            let queue_info: String = match state.queue_info() {
                Some(s) => s,
                None => String::new(),
            };
            let mut duration_text: String = String::new();
            push_clock(&mut duration_text, duration / SECOND);
            assert(duration_text@ =~= clock((duration / SECOND) as nat));
            let scrobbled: Result<(), DbError> = db.add_scrobble_with_path(
                track.title.as_str(),
                track.artist.as_str(),
                track.album.as_str(),
                track.path.as_str(),
                now,
            );
            Some(
                (
                    NowPlaying {
                        title: track.title,
                        artist: track.artist,
                        album: track.album,
                        path: track.path,
                        queue_info,
                        duration_text,
                    },
                    scrobbled,
                ),
            )
        },
    }
}

/// The songs of a playlist that is about to be played. Where it has songs, its last access is noted
/// at the time `now`.
pub fn open_playlist(db: &mut Db, playlist_id: i64, now: &str) -> (r: Vec<String>)
    requires
        old(db).wf(),
    ensures
        final(db).wf(),
        text_views(r@) == songs_of(old(db).tables(), playlist_id),
        if r@.len() > 0 && old(db).tables().has_playlist(playlist_id) {
            final(db).after(
                old(db),
                Some(ChangeData::SetAccessed { playlist_id, last_played: now@ }),
            )
        } else {
            final(db).after(old(db), None)
        },
{
    let songs: Vec<String> = db.get_songs(playlist_id);
    if songs.len() > 0 {
        let _noted: Result<(), DbError> = db.track_playlist_access(playlist_id, now);
    }
    songs
}

} // verus!
