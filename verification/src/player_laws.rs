//! What holds of a track that starts to play.

use vstd::prelude::*;

use crate::playback::queue_info_text;
use crate::playback::sleep_text;
use crate::playback::PlayState;
use crate::player::once_loaded;
use crate::player::scrobble_of;
use crate::player::LoadEvent;
use crate::player::NowPlaying;
use crate::tables::Moment;
use crate::tables::Tables;
use crate::text::clock;
use crate::track::Track;

verus! {

/// A track counts as loaded exactly where it plays. Its duration is noted where the file was
/// decoded, though the output did not take it. A file that cannot be read changes nothing, and
/// neither does an empty queue; nothing but the duration and what is loaded ever changes.
pub proof fn law_loading_is_noted(s: PlayState, event: LoadEvent)
    ensures
        ({
            let t = once_loaded(s, event);
            &&& t == (PlayState { duration: t.duration, loaded: t.loaded, ..s })
            &&& s.queue.len() == 0 || event is Unreadable ==> t == s
            &&& s.queue.len() > 0 ==> match event {
                LoadEvent::Unreadable => true,
                LoadEvent::NoOutput { duration } => t.duration == duration && t.loaded == s.loaded,
                LoadEvent::Playing { duration } => t.duration == duration && t.loaded,
            }
        }),
{
}

/// The play that is noted is that of the track: its title, artist, album and path, at the given
/// time, under the number that follows the largest ever given.
pub proof fn law_scrobble_is_of_the_track(t: Tables, track: Track, now: Moment)
    requires
        i64::MIN <= t.history_seq < i64::MAX,
    ensures
        ({
            let play = scrobble_of(t, track, now);
            &&& play.id == t.history_seq + 1
            &&& play.title == track.title@
            &&& play.artist == track.artist@
            &&& play.album == track.album@
            &&& play.path == Some(track.path@)
            &&& play.date == now.stamp@
            &&& play.day == Some(now.day@)
        }),
{
}

/// What is shown of the playing track is its title, artist, album and path, its place in the queue,
/// and its duration in whole seconds as a clock shows them.
pub proof fn law_playing_track_is_shown(shown: NowPlaying, s: PlayState, secs: nat)
    requires
        shown.shows(s),
        0 <= s.index < s.queue.len(),
        secs * 1_000_000_000 <= s.duration < (secs + 1) * 1_000_000_000,
    ensures
        shown.title@ == s.queue[s.index].title@,
        shown.artist@ == s.queue[s.index].artist@,
        shown.album@ == s.queue[s.index].album@,
        shown.path@ == s.queue[s.index].path@,
        shown.queue_info@ == queue_info_text(s),
        shown.duration_text@ == clock(secs),
{
    assert(s.duration / 1_000_000_000 == secs);
}

/// The text of the sleep timer is an hourglass, a space and what a clock shows.
pub proof fn law_sleep_is_shown(secs: nat)
    ensures
        sleep_text(secs).len() == 2 + clock(secs).len(),
        sleep_text(secs).take(2) == "⏳ "@,
        sleep_text(secs).skip(2) == clock(secs),
{
    reveal_strlit("⏳ ");
    assert(sleep_text(secs).take(2) =~= "⏳ "@);
    assert(sleep_text(secs).skip(2) =~= clock(secs));
}

} // verus!
