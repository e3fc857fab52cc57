//! Playback: the queue, its order, and what happens when a track ends.

use vstd::prelude::*;
use vstd::string::*;

use crate::order::lemma_filter_step;
use crate::text::clock;
use crate::text::decimal;
use crate::text::push_clock;
use crate::text::push_decimal;
use crate::track::copy_tracks;
use crate::track::Track;

use rand::seq::SliceRandom;

verus! {

/// Nanoseconds in a second.
pub const SECOND: u128 = 1_000_000_000;

/// The playback state: what is queued, what is playing, and the playback settings.
pub struct AudioState {
    /// Current play order (may be a shuffled copy of `original`).
    pub(crate) queue: Vec<Track>,
    /// Original order as loaded (never mutated by shuffle).
    pub(crate) original: Vec<Track>,
    /// The place of the playing track in the queue.
    pub(crate) index: usize,
    pub(crate) shuffle: bool,
    /// 0 = off, 1 = repeat all, 2 = repeat one.
    pub(crate) repeat: i32,
    /// Duration of the current track in nanoseconds (0 = unknown).
    pub(crate) duration: u128,
    /// Normalization preset: 0 off, 1 quiet, 2 normal, 3 loud.
    pub(crate) normalization: i32,
    pub(crate) mono: bool,
    /// Crossfade length in seconds (0 = off).
    pub(crate) crossfade: i32,
    /// Set while a crossfade advance is in flight to avoid re-triggering.
    pub(crate) crossfading: bool,
    /// Sleep timer deadline in nanoseconds of a steady clock.
    pub(crate) sleep_deadline: Option<u128>,
    /// A track is loaded into the audio output.
    pub(crate) loaded: bool,
}

/// The playback state as a mathematical value.
#[verifier::ext_equal]
pub struct PlayState {
    pub queue: Seq<Track>,
    pub original: Seq<Track>,
    pub index: int,
    pub shuffle: bool,
    pub repeat: int,
    pub duration: int,
    pub normalization: int,
    pub mono: bool,
    pub crossfade: int,
    pub crossfading: bool,
    pub sleep_deadline: Option<u128>,
    pub loaded: bool,
}

impl View for AudioState {
    type V = PlayState;

    open(crate) spec fn view(&self) -> PlayState {
        PlayState {
            queue: self.queue@,
            original: self.original@,
            index: self.index as int,
            shuffle: self.shuffle,
            repeat: self.repeat as int,
            duration: self.duration as int,
            normalization: self.normalization as int,
            mono: self.mono,
            crossfade: self.crossfade as int,
            crossfading: self.crossfading,
            sleep_deadline: self.sleep_deadline,
            loaded: self.loaded,
        }
    }
}

/// The smallest place of a track with the path `path`; the length where there is none.
pub open spec fn position_of(tracks: Seq<Track>, path: Seq<char>) -> int
    decreases tracks.len(),
{
    if tracks.len() == 0 {
        0
    } else if tracks[0].path@ == path {
        0
    } else {
        1 + position_of(tracks.drop_first(), path)
    }
}

/// The tracks whose path is not `path`, in their order.
pub open spec fn without_path(tracks: Seq<Track>, path: Seq<char>) -> Seq<Track> {
    tracks.filter(|t: Track| t.path@ != path)
}

/// `start`, or the last place where `start` is beyond it.
pub open spec fn clamped(start: int, len: int) -> int {
    if start < len {
        start
    } else {
        len - 1
    }
}

impl PlayState {
    /// The playing track is one of the queue, and the settings are in their ranges.
    pub open spec fn wf(self) -> bool {
        &&& self.queue.len() == 0 ==> self.index == 0
        &&& self.queue.len() > 0 ==> 0 <= self.index < self.queue.len()
        &&& 0 <= self.repeat <= 2
        &&& 0 <= self.crossfade <= 12
    }

    /// The track at the playing place.
    pub open spec fn current(self) -> Option<Track> {
        if self.index < self.queue.len() {
            Some(self.queue[self.index])
        } else {
            None
        }
    }

    /// Nothing queued, everything off.
    pub open spec fn initial() -> PlayState {
        PlayState {
            queue: Seq::empty(),
            original: Seq::empty(),
            index: 0,
            shuffle: false,
            repeat: 0,
            duration: 0,
            normalization: 0,
            mono: false,
            crossfade: 0,
            crossfading: false,
            sleep_deadline: None,
            loaded: false,
        }
    }

    /// The track at `index` was chosen; nothing is loaded yet.
    pub open spec fn selected(self, index: int) -> PlayState {
        if self.queue.len() == 0 {
            self
        } else {
            PlayState {
                index: clamped(index, self.queue.len() as int),
                crossfading: false,
                loaded: false,
                ..self
            }
        }
    }

    /// `tracks` replace the queue in their own order, from `start` on.
    pub open spec fn queued_in_order(self, tracks: Seq<Track>, start: int) -> PlayState {
        PlayState { queue: tracks, original: tracks, ..self }.selected(start)
    }

    /// `tracks` replace the queue: the one at `start` in front, then `rest`.
    pub open spec fn queued_shuffled(
        self,
        tracks: Seq<Track>,
        start: int,
        rest: Seq<Track>,
    ) -> PlayState {
        PlayState {
            queue: seq![tracks[clamped(start, tracks.len() as int)]] + rest,
            original: tracks,
            ..self
        }.selected(0)
    }

    /// The place of the playing track in the original order; the length where it is not in it.
    pub open spec fn current_in_original(self) -> int {
        match self.current() {
            Some(t) => position_of(self.original, t.path@),
            None => self.original.len() as int,
        }
    }

    /// What is left to shuffle behind the playing track.
    pub open spec fn to_shuffle(self) -> Seq<Track> {
        match self.current() {
            Some(t) => without_path(self.original, t.path@),
            None => self.original,
        }
    }

    /// Shuffle was switched on: the playing track in front, then `rest`.
    pub open spec fn shuffled(self, rest: Seq<Track>) -> PlayState {
        let at = self.current_in_original();
        let front = if at < self.original.len() {
            seq![self.original[at]]
        } else {
            Seq::empty()
        };
        PlayState { shuffle: true, queue: front + rest, index: 0, ..self }
    }

    /// Shuffle was switched off: the original order, at the playing track.
    pub open spec fn unshuffled(self) -> PlayState {
        let at = self.current_in_original();
        PlayState {
            shuffle: false,
            queue: self.original,
            index: if at < self.original.len() {
                at
            } else {
                0
            },
            ..self
        }
    }

    /// The track after the playing one, around the end.
    pub open spec fn next(self) -> int {
        (self.index + 1) % (self.queue.len() as int)
    }

    /// The track before the playing one, around the start.
    pub open spec fn prev(self) -> int {
        if self.index == 0 {
            self.queue.len() - 1
        } else {
            self.index - 1
        }
    }

    /// The next repeat mode.
    pub open spec fn repeat_cycled(self) -> PlayState {
        PlayState { repeat: (self.repeat + 1) % 3, ..self }
    }

    /// The track at `i` left the queue, and its path the original order. The playing track stays.
    pub open spec fn removed(self, i: int) -> PlayState {
        if 0 <= i < self.queue.len() && i != self.index {
            PlayState {
                queue: self.queue.remove(i),
                original: without_path(self.original, self.queue[i].path@),
                index: if i < self.index {
                    self.index - 1
                } else {
                    self.index
                },
                ..self
            }
        } else {
            self
        }
    }

    /// Where the track at `k` stands after the track at `from` went to `to`.
    pub open spec fn place_after_move(k: int, from: int, to: int) -> int {
        if k == from {
            to
        } else if from < k <= to {
            k - 1
        } else if to <= k < from {
            k + 1
        } else {
            k
        }
    }

    /// The track at `from` went to `to`; the playing track is still the same.
    pub open spec fn moved(self, from: int, to: int) -> PlayState {
        if 0 <= from < self.queue.len() && 0 <= to < self.queue.len() && from != to {
            PlayState {
                queue: self.queue.remove(from).insert(to, self.queue[from]),
                index: Self::place_after_move(self.index, from, to),
                ..self
            }
        } else {
            self
        }
    }
}

impl AudioState {
    /// The state is well formed.
    pub open spec fn wf(&self) -> bool {
        self@.wf()
    }

    /// Nothing queued, everything off.
    pub fn new() -> (r: Self)
        ensures
            r.wf(),
            r@ == PlayState::initial(),
    {
        let r: AudioState = AudioState {
            queue: Vec::new(),
            original: Vec::new(),
            index: 0,
            shuffle: false,
            repeat: 0,
            duration: 0,
            normalization: 0,
            mono: false,
            crossfade: 0,
            crossfading: false,
            sleep_deadline: None,
            loaded: false,
        };
        assert(r@ =~= PlayState::initial());
        r
    }

    /// The play order.
    pub fn queue(&self) -> (r: &Vec<Track>)
        ensures
            r@ == self@.queue,
    {
        &self.queue
    }

    /// The original order.
    pub fn original(&self) -> (r: &Vec<Track>)
        ensures
            r@ == self@.original,
    {
        &self.original
    }

    /// The place of the playing track in the queue.
    pub fn index(&self) -> (r: usize)
        ensures
            r == self@.index,
    {
        self.index
    }

    /// Shuffle is on.
    pub fn shuffle(&self) -> (r: bool)
        ensures
            r == self@.shuffle,
    {
        self.shuffle
    }

    /// The repeat mode: 0 = off, 1 = repeat all, 2 = repeat one.
    pub fn repeat(&self) -> (r: i32)
        ensures
            r == self@.repeat,
    {
        self.repeat
    }

    /// The duration of the current track in nanoseconds; zero is unknown.
    pub fn duration(&self) -> (r: u128)
        ensures
            r == self@.duration,
    {
        self.duration
    }

    /// Mono output is on.
    pub fn mono(&self) -> (r: bool)
        ensures
            r == self@.mono,
    {
        self.mono
    }

    /// The crossfade length in seconds; zero is off.
    pub fn crossfade(&self) -> (r: i32)
        ensures
            r == self@.crossfade,
    {
        self.crossfade
    }

    /// A track is loaded into the audio output.
    pub fn loaded(&self) -> (r: bool)
        ensures
            r == self@.loaded,
    {
        self.loaded
    }

    /// Chooses the track at `index`, or the last one where `index` is beyond it, and returns it.
    /// What was playing is unloaded. Does nothing where the queue is empty.
    pub fn play_at(&mut self, index: usize) -> (r: Option<Track>)
        requires
            old(self).wf(),
        ensures
            final(self).wf(),
            final(self)@ == old(self)@.selected(index as int),
            r == (if old(self)@.queue.len() == 0 {
                None
            } else {
                Some(old(self)@.queue[clamped(index as int, old(self)@.queue.len() as int)])
            }),
    {
        if self.queue.len() == 0 {
            return None;
        }
        let index: usize = if index < self.queue.len() {
            index
        } else {
            self.queue.len() - 1
        };
        self.index = index;
        self.crossfading = false;
        self.loaded = false;
        let track: Track = self.queue[index].clone();
        Some(track)
    }

    /// Notes the duration of the chosen track.
    pub fn set_duration(&mut self, duration: u128)
        requires
            old(self).wf(),
        ensures
            final(self).wf(),
            final(self)@ == (PlayState { duration: duration as int, ..old(self)@ }),
    {
        self.duration = duration;
    }

    /// Notes that the chosen track is loaded and playing.
    pub fn set_loaded(&mut self)
        requires
            old(self).wf(),
        ensures
            final(self).wf(),
            final(self)@ == (PlayState { loaded: true, ..old(self)@ }),
    {
        self.loaded = true;
    }

    /// Notes that playback stopped at the end of the queue.
    pub fn stop(&mut self)
        requires
            old(self).wf(),
        ensures
            final(self).wf(),
            final(self)@ == (PlayState { loaded: false, ..old(self)@ }),
    {
        self.loaded = false;
    }
}

/// A row of the queue panel.
pub struct QueueItem {
    pub title: String,
    pub artist: String,
    pub playing: bool,
}

/// The text that tells the place of the playing track.
pub open spec fn queue_info_text(state: PlayState) -> Seq<char> {
    "Faixa "@ + decimal((state.index + 1) as nat) + " de "@ + decimal(state.queue.len()) + (
    if state.shuffle {
        "  ·  aleatório"@
    } else {
        Seq::empty()
    })
}

/// Calls `rand::seq::SliceRandom::shuffle` with `rand::thread_rng`.
///
/// Believed of it: it only swaps tracks, so that afterwards the same tracks are there, each as
/// often as before. Their order is left to chance.
#[verifier::external_body]
fn shuffle_tracks(tracks: &mut Vec<Track>)
    ensures
        final(tracks)@.to_multiset() == old(tracks)@.to_multiset(),
{
    tracks.shuffle(&mut rand::thread_rng());
}

fn find_path(tracks: &Vec<Track>, path: &String) -> (r: Option<usize>)
    ensures
        match r {
            Some(i) => i == position_of(tracks@, path@) && i < tracks@.len(),
            None => position_of(tracks@, path@) == tracks@.len(),
        },
{
    let mut i: usize = 0;
    assert(tracks@.skip(0) == tracks@);
    while i < tracks.len()
        invariant
            i <= tracks.len(),
            position_of(tracks@, path@) == i + position_of(tracks@.skip(i as int), path@),
        decreases tracks.len() - i,
    {
        assert(tracks@.skip(i as int)[0] == tracks@[i as int]);
        if tracks[i].path == *path {
            return Some(i);
        }
        assert(tracks@.skip(i as int).drop_first() == tracks@.skip(i + 1));
        i = i + 1;
    }
    None
}

fn drop_path(tracks: &Vec<Track>, path: &String) -> (r: Vec<Track>)
    ensures
        r@ == without_path(tracks@, path@),
{
    let ghost keep = |t: Track| t.path@ != path@;
    let mut r: Vec<Track> = Vec::new();
    let mut i: usize = 0;
    assert(tracks@.take(0).filter(keep) == Seq::<Track>::empty()) by {
        reveal(Seq::filter);
    }
    while i < tracks.len()
        invariant
            i <= tracks.len(),
            keep == |t: Track| t.path@ != path@,
            r@ == tracks@.take(i as int).filter(keep),
        decreases tracks.len() - i,
    {
        proof {
            lemma_filter_step(tracks@, keep, i as int);
        }
        if tracks[i].path != *path {
            r.push(tracks[i].clone());
        }
        i = i + 1;
    }
    assert(tracks@.take(i as int) == tracks@);
    r
}

impl AudioState {
    /// The text that tells the place of the playing track; none where nothing is queued.
    pub fn queue_info(&self) -> (r: Option<String>)
        requires
            self.wf(),
        ensures
            self@.queue.len() == 0 <==> r is None,
            r matches Some(s) ==> s@ == queue_info_text(self@),
    {
        if self.queue.len() == 0 {
            return None;
        }
        let mut s: String = "Faixa ".to_owned();
        push_decimal(&mut s, self.index as u128 + 1);
        s.append(" de ");
        push_decimal(&mut s, self.queue.len() as u128);
        if self.shuffle {
            s.append("  ·  aleatório");
        }
        assert(s@ =~= queue_info_text(self@));
        Some(s)
    }

    /// The rows of the queue panel; the loaded track is marked as playing.
    pub fn queue_items(&self) -> (r: Vec<QueueItem>)
        ensures
            r@.len() == self@.queue.len(),
            forall|i: int|
                0 <= i < r@.len() ==> {
                    &&& (#[trigger] r@[i]).title == self@.queue[i].title
                    &&& r@[i].artist == self@.queue[i].artist
                    &&& r@[i].playing == (i == self@.index && self@.loaded)
                },
    {
        let mut r: Vec<QueueItem> = Vec::new();
        let mut i: usize = 0;
        while i < self.queue.len()
            invariant
                i <= self.queue.len(),
                r@.len() == i,
                forall|k: int|
                    0 <= k < i ==> {
                        &&& (#[trigger] r@[k]).title == self@.queue[k].title
                        &&& r@[k].artist == self@.queue[k].artist
                        &&& r@[k].playing == (k == self@.index && self@.loaded)
                    },
            decreases self.queue.len() - i,
        {
            r.push(
                QueueItem {
                    title: self.queue[i].title.clone(),
                    artist: self.queue[i].artist.clone(),
                    playing: i == self.index && self.loaded,
                },
            );
            i = i + 1;
        }
        r
    }

    /// The track after the playing one, around the end; none where nothing is queued.
    pub fn next_track(&self) -> (r: Option<usize>)
        requires
            self.wf(),
        ensures
            self@.queue.len() == 0 <==> r is None,
            r matches Some(i) ==> i == self@.next() && i < self@.queue.len(),
    {
        if self.queue.len() == 0 {
            None
        } else {
            Some((self.index + 1) % self.queue.len())
        }
    }

    /// The track before the playing one, around the start; none where nothing is queued.
    pub fn prev_track(&self) -> (r: Option<usize>)
        requires
            self.wf(),
        ensures
            self@.queue.len() == 0 <==> r is None,
            r matches Some(i) ==> i == self@.prev() && i < self@.queue.len(),
    {
        if self.queue.len() == 0 {
            None
        } else if self.index == 0 {
            Some(self.queue.len() - 1)
        } else {
            Some(self.index - 1)
        }
    }

    /// Replaces the queue with `tracks`, the one at `start` in front and `rest` behind it, and
    /// returns the track to play. Does nothing where there are no tracks.
    pub fn start_queue_with(&mut self, tracks: Vec<Track>, start: usize, rest: Vec<Track>) -> (r:
        Option<Track>)
        requires
            old(self).wf(),
            rest@.len() < usize::MAX,
        ensures
            final(self).wf(),
            tracks@.len() == 0 ==> r is None && final(self)@ == old(self)@,
            tracks@.len() > 0 ==> {
                &&& r == Some(tracks@[clamped(start as int, tracks@.len() as int)])
                &&& final(self)@ == old(self)@.queued_shuffled(tracks@, start as int, rest@)
            },
    {
        if tracks.len() == 0 {
            return None;
        }
        let at: usize = if start < tracks.len() {
            start
        } else {
            tracks.len() - 1
        };
        let mut queue: Vec<Track> = Vec::new();
        queue.push(tracks[at].clone());
        let mut behind: Vec<Track> = rest;
        queue.append(&mut behind);
        assert(queue@ =~= seq![tracks@[at as int]] + rest@);
        self.queue = queue;
        self.original = tracks;
        self.index = 0;
        self.play_at(0)
    }

    /// Replaces the queue with `tracks` and returns the track to play: the one at `start`, or the
    /// last one where `start` is beyond it. Honors the shuffle flag: then the other tracks follow
    /// in random order. Does nothing where there are no tracks.
    pub fn start_queue(&mut self, tracks: Vec<Track>, start: usize) -> (r: Option<Track>)
        requires
            old(self).wf(),
        ensures
            final(self).wf(),
            tracks@.len() == 0 ==> r is None && final(self)@ == old(self)@,
            tracks@.len() > 0 ==> r == Some(
                tracks@[clamped(start as int, tracks@.len() as int)],
            ),
            tracks@.len() > 0 && !old(self)@.shuffle ==> final(self)@
                == old(self)@.queued_in_order(tracks@, start as int),
            tracks@.len() > 0 && old(self)@.shuffle ==> exists|rest: Seq<Track>|
                {
                    &&& rest.to_multiset() == tracks@.remove(
                        clamped(start as int, tracks@.len() as int),
                    ).to_multiset()
                    &&& final(self)@ == #[trigger] old(self)@.queued_shuffled(
                        tracks@,
                        start as int,
                        rest,
                    )
                },
    {
        if tracks.len() == 0 {
            return None;
        }
        if self.shuffle {
            let at: usize = if start < tracks.len() {
                start
            } else {
                tracks.len() - 1
            };
            let mut rest: Vec<Track> = copy_tracks(&tracks);
            let _clicked: Track = rest.remove(at);
            let ghost unshuffled = rest@;
            shuffle_tracks(&mut rest);
            proof {
                rest@.to_multiset_ensures();
                unshuffled.to_multiset_ensures();
            }
            self.start_queue_with(tracks, start, rest)
        } else {
            self.original = copy_tracks(&tracks);
            self.queue = tracks;
            self.index = 0;
            self.play_at(start)
        }
    }

    /// What is left to shuffle behind the playing track: the original order without its path.
    pub fn shuffle_rest(&self) -> (r: Vec<Track>)
        ensures
            r@ == self@.to_shuffle(),
    {
        if self.index < self.queue.len() {
            drop_path(&self.original, &self.queue[self.index].path)
        } else {
            copy_tracks(&self.original)
        }
    }

    /// Switches shuffle. Switched on, the queue is the playing track and `rest` behind it.
    /// Switched off, it is the original order, at the playing track.
    pub fn toggle_shuffle_with(&mut self, rest: Vec<Track>)
        requires
            old(self).wf(),
            rest@.len() < usize::MAX,
        ensures
            final(self).wf(),
            !old(self)@.shuffle ==> final(self)@ == old(self)@.shuffled(rest@),
            old(self)@.shuffle ==> final(self)@ == old(self)@.unshuffled(),
    {
        let at: Option<usize> = if self.index < self.queue.len() {
            find_path(&self.original, &self.queue[self.index].path)
        } else {
            None
        };
        if self.shuffle {
            self.shuffle = false;
            self.queue = copy_tracks(&self.original);
            self.index = match at {
                Some(i) => i,
                None => 0,
            };
        } else {
            self.shuffle = true;
            let mut queue: Vec<Track> = Vec::new();
            if let Some(i) = at {
                queue.push(self.original[i].clone());
            }
            let mut behind: Vec<Track> = rest;
            let ghost front = queue@;
            queue.append(&mut behind);
            assert(queue@ =~= front + rest@);
            self.queue = queue;
            self.index = 0;
            proof {
                let at = old(self)@.current_in_original();
                if at < old(self)@.original.len() {
                    assert(front =~= seq![old(self)@.original[at]]);
                } else {
                    assert(front =~= Seq::<Track>::empty());
                }
            }
        }
    }

    /// Switches shuffle. Switched on, the rest of the original order follows the playing track in
    /// random order. Switched off, the queue is the original order again, at the playing track.
    pub fn toggle_shuffle(&mut self)
        requires
            old(self).wf(),
            old(self)@.original.len() < usize::MAX,
        ensures
            final(self).wf(),
            !old(self)@.shuffle ==> exists|rest: Seq<Track>|
                {
                    &&& rest.to_multiset() == old(self)@.to_shuffle().to_multiset()
                    &&& final(self)@ == #[trigger] old(self)@.shuffled(rest)
                },
            old(self)@.shuffle ==> final(self)@ == old(self)@.unshuffled(),
    {
        let mut rest: Vec<Track> = Vec::new();
        if !self.shuffle {
            rest = self.shuffle_rest();
            let ghost unshuffled = rest@;
            shuffle_tracks(&mut rest);
            proof {
                rest@.to_multiset_ensures();
                unshuffled.to_multiset_ensures();
                if let Some(t) = self@.current() {
                    self@.original.lemma_filter_len(|u: Track| u.path@ != t.path@);
                }
            }
        }
        self.toggle_shuffle_with(rest);
    }

    /// Goes to the next repeat mode: off, all, one, and off again.
    pub fn cycle_repeat(&mut self)
        requires
            old(self).wf(),
        ensures
            final(self).wf(),
            final(self)@ == old(self)@.repeat_cycled(),
    {
        self.repeat = (self.repeat + 1) % 3;
    }

    /// Removes the track at `i` from the queue, and its path from the original order. The playing
    /// track is never removed. Tells whether anything was removed.
    pub fn queue_remove(&mut self, i: usize) -> (r: bool)
        requires
            old(self).wf(),
        ensures
            final(self).wf(),
            final(self)@ == old(self)@.removed(i as int),
            r == (i < old(self)@.queue.len() && i != old(self)@.index),
    {
        if i >= self.queue.len() || i == self.index {
            return false;
        }
        let gone: Track = self.queue.remove(i);
        if i < self.index {
            self.index = self.index - 1;
        }
        self.original = drop_path(&self.original, &gone.path);
        true
    }

    /// Moves the track at `from` to `to`; the playing track stays the same. Tells whether anything
    /// was moved.
    pub fn queue_move(&mut self, from: usize, to: usize) -> (r: bool)
        requires
            old(self).wf(),
        ensures
            final(self).wf(),
            final(self)@ == old(self)@.moved(from as int, to as int),
            r == (from < old(self)@.queue.len() && to < old(self)@.queue.len() && from != to),
    {
        if from >= self.queue.len() || to >= self.queue.len() || from == to {
            return false;
        }
        let item: Track = self.queue.remove(from);
        self.queue.insert(to, item);
        if self.index == from {
            self.index = to;
        } else if from < self.index && to >= self.index {
            self.index = self.index - 1;
        } else if from > self.index && to <= self.index {
            self.index = self.index + 1;
        }
        true
    }
}

/// What the audio output tells of the loaded track.
pub struct SinkStatus {
    /// The track has been played to its end.
    pub empty: bool,
    pub paused: bool,
    /// How far the track has been played, in nanoseconds.
    pub position: u128,
}

/// What is to be done at a tick of the progress timer.
pub enum Action {
    Idle,
    /// Show the position in the track; a duration of zero is unknown.
    Update { position: u128, duration: u128 },
    /// Play the track at `index`. With `fade` above zero the loaded track fades out and the new
    /// one fades in, over as many seconds.
    Advance { index: usize, fade: i32 },
    /// The queue has been played to its end.
    Stop,
}

/// What the sleep timer says.
pub enum SleepEvent {
    /// No timer is set.
    Off,
    /// The deadline has passed: playback pauses, and the timer is off.
    Expired,
    /// Whole seconds are left.
    Remaining { secs: u128 },
}

/// What the play button does.
pub enum PlayPause {
    /// Nothing is loaded.
    Nothing,
    Resume,
    Pause,
}

impl PlayState {
    /// A crossfade may go on to another track.
    pub open spec fn can_crossfade(self) -> bool {
        &&& self.repeat != 2
        &&& self.index + 1 < self.queue.len() || (self.repeat == 1 && self.queue.len() > 1)
    }

    /// The position is so near to the end that the crossfade starts.
    pub open spec fn crossfade_due(self, position: int) -> bool {
        &&& self.crossfade > 0
        &&& !self.crossfading
        &&& position < self.duration
        &&& self.duration - position <= self.crossfade * SECOND
        &&& self.can_crossfade()
    }

    /// What is to be done at a tick.
    pub open spec fn tick_action(self, status: SinkStatus) -> Action {
        if !self.loaded || status.paused {
            Action::Idle
        } else if status.empty {
            if self.repeat == 2 {
                Action::Advance { index: self.index as usize, fade: 0 }
            } else if self.index + 1 < self.queue.len() {
                Action::Advance { index: (self.index + 1) as usize, fade: 0 }
            } else if self.repeat == 1 && self.queue.len() > 0 {
                Action::Advance { index: 0, fade: 0 }
            } else {
                Action::Stop
            }
        } else if self.crossfade_due(status.position as int) {
            Action::Advance {
                index: if self.index + 1 < self.queue.len() {
                    (self.index + 1) as usize
                } else {
                    0
                },
                fade: self.crossfade as i32,
            }
        } else {
            Action::Update { position: status.position, duration: self.duration as u128 }
        }
    }

    /// The state after a tick: a crossfade that starts takes the loaded track away.
    pub open spec fn ticked(self, status: SinkStatus) -> PlayState {
        if self.loaded && !status.paused && !status.empty && self.crossfade_due(
            status.position as int,
        ) {
            PlayState { crossfading: true, loaded: false, ..self }
        } else {
            self
        }
    }

    /// The state after `minutes` were set on the sleep timer at the time `now`.
    pub open spec fn sleep_set(self, minutes: int, now: int) -> PlayState {
        PlayState {
            sleep_deadline: if minutes <= 0 {
                None
            } else {
                Some((now + minutes * 60 * SECOND) as u128)
            },
            ..self
        }
    }

    /// What the sleep timer says at the time `now`.
    pub open spec fn sleep_event(self, now: int) -> SleepEvent {
        match self.sleep_deadline {
            None => SleepEvent::Off,
            Some(deadline) => if now >= deadline {
                SleepEvent::Expired
            } else {
                SleepEvent::Remaining { secs: ((deadline - now) / (SECOND as int)) as u128 }
            },
        }
    }

    /// The state after the sleep timer was looked at.
    pub open spec fn sleep_checked(self, now: int) -> PlayState {
        if self.sleep_event(now) is Expired {
            PlayState { sleep_deadline: None, ..self }
        } else {
            self
        }
    }
}

/// The text that tells how long the sleep timer still runs.
pub open spec fn sleep_text(secs: nat) -> Seq<char> {
    "⏳ "@ + clock(secs)
}

/// Writes how long the sleep timer still runs.
pub fn sleep_remaining(secs: u128) -> (r: String)
    ensures
        r@ == sleep_text(secs as nat),
{
    let mut r: String = "⏳ ".to_owned();
    push_clock(&mut r, secs);
    r
}

impl AudioState {
    /// What the play button does while the loaded track is paused or not.
    pub fn play_pause(&self, paused: bool) -> (r: PlayPause)
        ensures
            r == (if !self@.loaded {
                PlayPause::Nothing
            } else if paused {
                PlayPause::Resume
            } else {
                PlayPause::Pause
            }),
    {
        if !self.loaded {
            PlayPause::Nothing
        } else if paused {
            PlayPause::Resume
        } else {
            PlayPause::Pause
        }
    }

    /// Decides what is to be done at a tick of the progress timer: auto-advance, the repeat modes
    /// and the crossfade.
    pub fn tick(&mut self, status: SinkStatus) -> (r: Action)
        requires
            old(self).wf(),
        ensures
            final(self).wf(),
            r == old(self)@.tick_action(status),
            final(self)@ == old(self)@.ticked(status),
    {
        if !self.loaded || status.paused {
            return Action::Idle;
        }
        let len: usize = self.queue.len();
        let has_next: bool = self.index + 1 < len;
        if status.empty {
            if self.repeat == 2 {
                Action::Advance { index: self.index, fade: 0 }
            } else if has_next {
                Action::Advance { index: self.index + 1, fade: 0 }
            } else if self.repeat == 1 && self.queue.len() > 0 {
                Action::Advance { index: 0, fade: 0 }
            } else {
                Action::Stop
            }
        } else {
            let can_advance: bool = self.repeat != 2 && (has_next || (self.repeat == 1
                && self.queue.len() > 1));
            if self.crossfade > 0 && !self.crossfading && status.position < self.duration
                && self.duration - status.position <= self.crossfade as u128 * SECOND
                && can_advance {
                self.crossfading = true;
                self.loaded = false;
                let next: usize = if has_next {
                    self.index + 1
                } else {
                    0
                };
                Action::Advance { index: next, fade: self.crossfade }
            } else {
                Action::Update { position: status.position, duration: self.duration }
            }
        }
    }

    /// Sets the sleep timer to `minutes` from `now` on, or switches it off where `minutes` is not
    /// above zero. Returns the minutes to show.
    pub fn set_sleep(&mut self, minutes: i32, now: u128) -> (r: i32)
        requires
            old(self).wf(),
            now + minutes * 60 * SECOND <= u128::MAX,
        ensures
            final(self).wf(),
            final(self)@ == old(self)@.sleep_set(minutes as int, now as int),
            r == (if minutes <= 0 {
                0
            } else {
                minutes as int
            }),
    {
        if minutes <= 0 {
            self.sleep_deadline = None;
            0
        } else {
            self.sleep_deadline = Some(now + minutes as u128 * 60 * SECOND);
            minutes
        }
    }

    /// Looks at the sleep timer at the time `now`.
    pub fn check_sleep(&mut self, now: u128) -> (r: SleepEvent)
        requires
            old(self).wf(),
        ensures
            final(self).wf(),
            r == old(self)@.sleep_event(now as int),
            final(self)@ == old(self)@.sleep_checked(now as int),
    {
        match self.sleep_deadline {
            None => SleepEvent::Off,
            Some(deadline) => {
                if now >= deadline {
                    self.sleep_deadline = None;
                    SleepEvent::Expired
                } else {
                    SleepEvent::Remaining { secs: (deadline - now) / SECOND }
                }
            },
        }
    }

    /// Sets the crossfade length; it is at most twelve seconds.
    pub fn set_crossfade(&mut self, secs: i32) -> (r: i32)
        requires
            old(self).wf(),
        ensures
            final(self).wf(),
            r == within(secs as int, 0, 12),
            final(self)@ == (PlayState { crossfade: r as int, ..old(self)@ }),
    {
        let secs: i32 = clamp(secs, 0, 12);
        self.crossfade = secs;
        secs
    }

    /// Sets the normalization preset.
    pub fn set_normalization(&mut self, mode: i32)
        requires
            old(self).wf(),
        ensures
            final(self).wf(),
            final(self)@ == (PlayState { normalization: mode as int, ..old(self)@ }),
    {
        self.normalization = mode;
    }

    /// Sets mono output. It takes effect on the next track.
    pub fn set_mono(&mut self, mono: bool)
        requires
            old(self).wf(),
        ensures
            final(self).wf(),
            final(self)@ == (PlayState { mono, ..old(self)@ }),
    {
        self.mono = mono;
    }

    /// The gain of the normalization preset, in hundredths.
    pub fn normalization_gain(&self) -> (r: u32)
        ensures
            r == gain_of(self@.normalization),
    {
        match self.normalization {
            1 => 55,
            2 => 85,
            3 => 120,
            _ => 100,
        }
    }
}

/// The gain of a normalization preset, in hundredths: quiet, normal and loud, else unchanged.
pub open spec fn gain_of(normalization: int) -> int {
    if normalization == 1 {
        55
    } else if normalization == 2 {
        85
    } else if normalization == 3 {
        120
    } else {
        100
    }
}

/// `n`, or the bound that it is beyond.
pub open spec fn within(n: int, low: int, high: int) -> int {
    if n < low {
        low
    } else if n > high {
        high
    } else {
        n
    }
}

/// Holds a number between two bounds.
pub fn clamp(n: i32, low: i32, high: i32) -> (r: i32)
    requires
        low <= high,
    ensures
        r == within(n as int, low as int, high as int),
{
    if n < low {
        low
    } else if n > high {
        high
    } else {
        n
    }
}

} // verus!
