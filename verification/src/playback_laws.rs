//! What holds of the queue across its operations.

use vstd::prelude::*;
use vstd::arithmetic::div_mod::lemma_add_mod_noop;
use vstd::arithmetic::div_mod::lemma_mod_add_multiples_vanish;
use vstd::arithmetic::div_mod::lemma_mod_bound;
use vstd::arithmetic::div_mod::lemma_mod_twice;
use vstd::arithmetic::div_mod::lemma_small_mod;
use vstd::seq_lib::to_multiset_contains;
use vstd::seq_lib::to_multiset_insert;

use crate::playback::clamped;
use crate::playback::gain_of;
use crate::playback::position_of;
use crate::playback::queue_info_text;
use crate::playback::within;
use crate::playback::without_path;
use crate::playback::Action;
use crate::playback::PlayState;
use crate::playback::SinkStatus;
use crate::playback::SleepEvent;
use crate::playback::SECOND;
use crate::relations::lemma_filter_lists;
use crate::relations::lists_those;
use crate::tables::lemma_filter_but_one;
use crate::text::decimal;
use crate::text::numeral_value;
use crate::text_laws::law_numeral;
use crate::track::Track;

verus! {

/// Moving tracks about never changes which track is playing.
pub proof fn law_move_keeps_playing(s: PlayState, from: int, to: int)
    requires
        s.wf(),
    ensures
        s.moved(from, to).wf(),
        s.moved(from, to).current() == s.current(),
{
}

/// Moving a track about loses none and adds none, and every other track keeps its neighbours'
/// order: the track at `k` is found where `place_after_move` says.
pub proof fn law_move_permutes(s: PlayState, from: int, to: int)
    requires
        0 <= from < s.queue.len(),
        0 <= to < s.queue.len(),
    ensures
        s.moved(from, to).queue.len() == s.queue.len(),
        forall|k: int|
            0 <= k < s.queue.len() ==> #[trigger] s.queue[k] == s.moved(
                from,
                to,
            ).queue[PlayState::place_after_move(k, from, to)],
        s.moved(from, to).queue.to_multiset() == s.queue.to_multiset(),
{
    if from != to {
        let item = s.queue[from];
        let rest = s.queue.remove(from);
        to_multiset_insert(rest, to, item);
        lemma_remove_multiset(s.queue, from);
        assert(s.moved(from, to).queue.to_multiset() =~= s.queue.to_multiset());
    }
}

/// Removing takes one of the track away.
proof fn lemma_remove_multiset(s: Seq<Track>, at: int)
    requires
        0 <= at < s.len(),
    ensures
        s.to_multiset() =~= s.remove(at).to_multiset().insert(s[at]),
{
    assert(s.remove(at).insert(at, s[at]) =~= s);
    to_multiset_insert(s.remove(at), at, s[at]);
}

/// Moving a track and moving it back leaves the queue and the playing place as they were.
pub proof fn law_move_back(s: PlayState, from: int, to: int)
    requires
        s.wf(),
    ensures
        s.moved(from, to).moved(to, from) == s,
{
    let t = s.moved(from, to);
    if 0 <= from < s.queue.len() && 0 <= to < s.queue.len() && from != to {
        assert(t.queue.remove(to) =~= s.queue.remove(from));
        assert(t.queue.remove(to).insert(from, t.queue[to]) =~= s.queue);
        assert(t.moved(to, from) =~= s);
    }
}

/// Removing a track from the queue never removes the playing one: it goes on playing.
pub proof fn law_remove_keeps_playing(s: PlayState, i: int)
    requires
        s.wf(),
    ensures
        s.removed(i).wf(),
        s.removed(i).current() == s.current(),
{
}

/// Removing takes the one track at `i` and leaves the others in their order.
pub proof fn law_remove_takes_one(s: PlayState, i: int)
    requires
        0 <= i < s.queue.len(),
        i != s.index,
    ensures
        s.removed(i).queue.len() == s.queue.len() - 1,
        forall|k: int| 0 <= k < i ==> s.removed(i).queue[k] == #[trigger] s.queue[k],
        forall|k: int| i < k < s.queue.len() ==> s.removed(i).queue[k - 1] == #[trigger] s.queue[k],
{
}

/// Going to the next track and then to the previous one is back where it began, and the other way
/// round.
pub proof fn law_next_and_prev(s: PlayState)
    requires
        s.wf(),
        s.queue.len() > 0,
    ensures
        s.selected(s.next()).prev() == s.index,
        s.selected(s.prev()).next() == s.index,
{
    let n = s.queue.len() as int;
    if s.index + 1 == n {
        assert((s.index + 1) % n == 0) by (nonlinear_arith)
            requires
                s.index + 1 == n,
                n > 0,
        ;
    } else {
        lemma_small_mod((s.index + 1) as nat, n as nat);
    }
    let p = s.prev();
    if p + 1 == n {
        assert((p + 1) % n == 0) by (nonlinear_arith)
            requires
                p + 1 == n,
                n > 0,
        ;
    } else {
        lemma_small_mod((p + 1) as nat, n as nat);
    }
}

/// The state after going to the next track `times` times.
pub open spec fn skipped(s: PlayState, times: nat) -> PlayState
    decreases times,
{
    if times == 0 {
        s
    } else {
        let t = skipped(s, (times - 1) as nat);
        t.selected(t.next())
    }
}

/// Going to the next track again and again visits the queue in its order, around the end: after as
/// many steps as there are tracks the first one plays again.
pub proof fn law_next_goes_round(s: PlayState, times: nat)
    requires
        s.wf(),
        s.queue.len() > 0,
    ensures
        skipped(s, times).wf(),
        skipped(s, times).queue == s.queue,
        skipped(s, times).index == (s.index + times) % (s.queue.len() as int),
        skipped(s, s.queue.len()).index == s.index,
{
    lemma_skipped(s, times);
    lemma_skipped(s, s.queue.len());
    let n = s.queue.len() as int;
    lemma_mod_add_multiples_vanish(s.index, n);
    lemma_small_mod(s.index as nat, n as nat);
}

proof fn lemma_skipped(s: PlayState, times: nat)
    requires
        s.wf(),
        s.queue.len() > 0,
    ensures
        skipped(s, times).wf(),
        skipped(s, times).queue == s.queue,
        skipped(s, times).index == (s.index + times) % (s.queue.len() as int),
    decreases times,
{
    let n = s.queue.len() as int;
    if times == 0 {
        lemma_small_mod(s.index as nat, n as nat);
    } else {
        let t = skipped(s, (times - 1) as nat);
        lemma_skipped(s, (times - 1) as nat);
        lemma_mod_bound(t.index + 1, n);
        lemma_add_mod_noop(s.index + times - 1, 1, n);
        lemma_add_mod_noop(t.index, 1, n);
        lemma_mod_twice(s.index + times - 1, n);
    }
}

/// Three steps through the repeat modes lead back to the first.
pub proof fn law_repeat_cycles(s: PlayState)
    requires
        s.wf(),
    ensures
        s.repeat_cycled().repeat_cycled().repeat_cycled() == s,
        s.repeat_cycled().repeat != s.repeat,
        s.repeat_cycled().repeat_cycled().repeat != s.repeat,
{
    assert(s.repeat_cycled().repeat_cycled().repeat_cycled() =~= s);
}

/// The place that `position_of` gives is the first with the path.
pub proof fn lemma_position_of(tracks: Seq<Track>, path: Seq<char>)
    ensures
        0 <= position_of(tracks, path) <= tracks.len(),
        position_of(tracks, path) < tracks.len() ==> tracks[position_of(tracks, path)].path@
            == path,
        forall|k: int|
            0 <= k < position_of(tracks, path) ==> (#[trigger] tracks[k]).path@ != path,
    decreases tracks.len(),
{
    if tracks.len() > 0 && tracks[0].path@ != path {
        lemma_position_of(tracks.drop_first(), path);
        assert forall|k: int| 0 <= k < position_of(tracks, path) implies (
        #[trigger] tracks[k]).path@ != path by {
            if k > 0 {
                assert(tracks[k] == tracks.drop_first()[k - 1]);
            }
        }
    }
}

/// Shuffling never touches the original order, whatever order comes out.
pub proof fn law_shuffle_keeps_original(s: PlayState, rest: Seq<Track>)
    ensures
        s.shuffled(rest).original == s.original,
        s.unshuffled().original == s.original,
{
}

/// Switching shuffle keeps the file that is playing, as long as the original order has it.
pub proof fn law_shuffle_keeps_playing(s: PlayState, rest: Seq<Track>)
    requires
        s.wf(),
        s.current() is Some,
        s.current_in_original() < s.original.len(),
    ensures
        s.shuffled(rest).current() is Some,
        s.shuffled(rest).current()->0.path@ == s.current()->0.path@,
        s.unshuffled().current() is Some,
        s.unshuffled().current()->0.path@ == s.current()->0.path@,
{
    lemma_position_of(s.original, s.current()->0.path@);
}

/// Switching shuffle on and off again gives the original order back, at the file that is playing.
pub proof fn law_shuffle_and_back(s: PlayState, rest: Seq<Track>)
    requires
        s.wf(),
        !s.shuffle,
        s.current() is Some,
        s.current_in_original() < s.original.len(),
    ensures
        s.shuffled(rest).unshuffled() == s.unshuffled(),
        s.shuffled(rest).unshuffled().queue == s.original,
        s.queue == s.original && s.index == s.current_in_original() ==> s.shuffled(
            rest,
        ).unshuffled() == s,
{
    law_shuffle_keeps_playing(s, rest);
    assert(s.shuffled(rest).unshuffled() =~= s.unshuffled());
    if s.queue == s.original && s.index == s.current_in_original() {
        assert(s.unshuffled() =~= s);
    }
}

/// A shuffled start plays every track of the list, each as often as it stands in it.
pub proof fn law_shuffled_start_plays_all(
    s: PlayState,
    tracks: Seq<Track>,
    start: int,
    rest: Seq<Track>,
)
    requires
        tracks.len() > 0,
        0 <= start,
        rest.to_multiset() == tracks.remove(clamped(start, tracks.len() as int)).to_multiset(),
    ensures
        s.queued_shuffled(tracks, start, rest).queue.to_multiset() == tracks.to_multiset(),
        s.queued_shuffled(tracks, start, rest).queue.len() == tracks.len(),
        s.queued_shuffled(tracks, start, rest).queue[0] == tracks[clamped(
            start,
            tracks.len() as int,
        )],
        s.queued_shuffled(tracks, start, rest).index == 0,
{
    broadcast use vstd::seq_lib::group_to_multiset_ensures;

    let at = clamped(start, tracks.len() as int);
    lemma_remove_multiset(tracks, at);
    to_multiset_insert(rest, 0, tracks[at]);
    rest.to_multiset_ensures();
    tracks.remove(at).to_multiset_ensures();
    assert(seq![tracks[at]] + rest =~= rest.insert(0, tracks[at]));
    assert((seq![tracks[at]] + rest).to_multiset() =~= tracks.to_multiset());
}

/// Switching shuffle on keeps the tracks of the original order, each as often as before, where no
/// other track has the path of the playing one.
pub proof fn law_shuffle_plays_all(s: PlayState, rest: Seq<Track>)
    requires
        s.wf(),
        s.current() is Some,
        s.current_in_original() < s.original.len(),
        forall|k: int|
            0 <= k < s.original.len() && k != s.current_in_original() ==> (
            #[trigger] s.original[k]).path@ != s.current()->0.path@,
        rest.to_multiset() == s.to_shuffle().to_multiset(),
    ensures
        s.shuffled(rest).queue.to_multiset() == s.original.to_multiset(),
{
    let path = s.current()->0.path@;
    let at = s.current_in_original();
    lemma_position_of(s.original, path);
    let keep = |t: Track| t.path@ != path;
    assert(keep =~= |t: Track| t.path@ != s.current()->0.path@);
    lemma_filter_but_one(s.original, keep, at);
    lemma_remove_multiset(s.original, at);
    to_multiset_insert(rest, 0, s.original[at]);
    assert(seq![s.original[at]] + rest =~= rest.insert(0, s.original[at]));
    assert(s.shuffled(rest).queue.to_multiset() =~= s.original.to_multiset());
}

/// Every queued file is one of the original order.
pub open spec fn covered(s: PlayState) -> bool {
    forall|k: int|
        0 <= k < s.queue.len() ==> position_of(s.original, (#[trigger] s.queue[k]).path@)
            < s.original.len()
}

proof fn lemma_position_found(tracks: Seq<Track>, path: Seq<char>, k: int)
    requires
        0 <= k < tracks.len(),
        tracks[k].path@ == path,
    ensures
        position_of(tracks, path) < tracks.len(),
{
    lemma_position_of(tracks, path);
}

/// What a shuffled list holds, the list holds.
proof fn lemma_shuffled_from(rest: Seq<Track>, list: Seq<Track>, k: int)
    requires
        rest.to_multiset() == list.to_multiset(),
        0 <= k < rest.len(),
    ensures
        list.contains(rest[k]),
{
    to_multiset_contains(rest, rest[k]);
    to_multiset_contains(list, rest[k]);
    assert(rest.contains(rest[k]));
}

/// Whatever is queued, chosen, moved or shuffled, every queued file is one of the original order,
/// so that switching shuffle finds the playing one in it.
pub proof fn law_queue_stays_covered(
    s: PlayState,
    tracks: Seq<Track>,
    at: int,
    to: int,
    rest: Seq<Track>,
)
    requires
        s.wf(),
        0 <= at,
    ensures
        covered(PlayState::initial()),
        covered(s.queued_in_order(tracks, at)),
        tracks.len() > 0 && rest.to_multiset() == tracks.remove(
            clamped(at, tracks.len() as int),
        ).to_multiset() ==> covered(s.queued_shuffled(tracks, at, rest)),
        rest.to_multiset() == s.to_shuffle().to_multiset() ==> covered(s.shuffled(rest)),
        covered(s.unshuffled()),
        covered(s) ==> covered(s.selected(at)),
        covered(s) ==> covered(s.moved(at, to)),
        covered(s) && s.queue.len() > 0 ==> s.current() is Some && s.current_in_original()
            < s.original.len(),
{
    let n = tracks.len() as int;
    assert forall|k: int| 0 <= k < n implies position_of(tracks, (#[trigger] tracks[k]).path@)
        < n by {
        lemma_position_found(tracks, tracks[k].path@, k);
    }
    assert forall|k: int| 0 <= k < s.original.len() implies position_of(
        s.original,
        (#[trigger] s.original[k]).path@,
    ) < s.original.len() by {
        lemma_position_found(s.original, s.original[k].path@, k);
    }
    if n > 0 && rest.to_multiset() == tracks.remove(clamped(at, n)).to_multiset() {
        let c = clamped(at, n);
        let left = tracks.remove(c);
        let queue = s.queued_shuffled(tracks, at, rest).queue;
        assert forall|k: int| 0 <= k < queue.len() implies position_of(
            tracks,
            (#[trigger] queue[k]).path@,
        ) < n by {
            if k == 0 {
                assert(queue[0] == tracks[c]);
            } else {
                assert(queue[k] == rest[k - 1]);
                lemma_shuffled_from(rest, left, k - 1);
                let j = choose|j: int| 0 <= j < left.len() && left[j] == rest[k - 1];
                assert(tracks[if j < c { j } else { j + 1 }] == rest[k - 1]);
            }
        }
    }
    if rest.to_multiset() == s.to_shuffle().to_multiset() {
        let left = s.to_shuffle();
        let queue = s.shuffled(rest).queue;
        let found = s.current_in_original();
        if let Some(t) = s.current() {
            lemma_position_of(s.original, t.path@);
        }
        assert forall|k: int| 0 <= k < queue.len() implies position_of(
            s.original,
            (#[trigger] queue[k]).path@,
        ) < s.original.len() by {
            let front: int = if found < s.original.len() {
                1
            } else {
                0
            };
            if k < front {
                assert(queue[k] == s.original[found]);
            } else {
                assert(queue[k] == rest[k - front]);
                lemma_shuffled_from(rest, left, k - front);
                let j = choose|j: int| 0 <= j < left.len() && left[j] == rest[k - front];
                match s.current() {
                    Some(t) => {
                        let keep = |u: Track| u.path@ != t.path@;
                        s.original.lemma_filter_contains_rev(keep, left[j]);
                        let i = choose|i: int|
                            0 <= i < s.original.len() && s.original[i] == left[j];
                        assert(s.original[i] == queue[k]);
                    },
                    None => {
                        assert(s.original[j] == queue[k]);
                    },
                }
            }
        }
    }
    if covered(s) {
        let queue = s.moved(at, to).queue;
        if 0 <= at < s.queue.len() && 0 <= to < s.queue.len() && at != to {
            assert forall|k: int| 0 <= k < queue.len() implies position_of(
                s.original,
                (#[trigger] queue[k]).path@,
            ) < s.original.len() by {
                let from = PlayState::place_after_move(k, to, at);
                assert(queue[k] == s.queue[from]);
            }
        }
    }
}

/// Removing a track keeps every queued file in the original order, where no other queued track has
/// the file of the removed one.
pub proof fn law_remove_keeps_covered(s: PlayState, i: int)
    requires
        s.wf(),
        covered(s),
        0 <= i < s.queue.len(),
        forall|k: int|
            0 <= k < s.queue.len() && k != i ==> (#[trigger] s.queue[k]).path@
                != s.queue[i].path@,
    ensures
        covered(s.removed(i)),
{
    if i != s.index {
        let gone = s.queue[i].path@;
        let keep = |t: Track| t.path@ != gone;
        let left = without_path(s.original, gone);
        let queue = s.removed(i).queue;
        assert forall|k: int| 0 <= k < queue.len() implies position_of(
            left,
            (#[trigger] queue[k]).path@,
        ) < left.len() by {
            let from = if k < i {
                k
            } else {
                k + 1
            };
            assert(queue[k] == s.queue[from]);
            let path = queue[k].path@;
            lemma_position_of(s.original, path);
            let at = position_of(s.original, path);
            assert(keep(s.original[at]));
            s.original.lemma_filter_contains(keep, at);
            assert(left.contains(s.original[at]));
            let j = choose|j: int| 0 <= j < left.len() && left[j] == s.original[at];
            lemma_position_found(left, path, j);
        }
    }
}

/// A tick never asks for a track that is not queued.
pub proof fn law_advance_is_queued(s: PlayState, status: SinkStatus)
    requires
        s.wf(),
        0 < s.queue.len() <= usize::MAX,
    ensures
        (s.tick_action(status) matches Action::Advance { index, fade } ==> index < s.queue.len()),
{
}

/// When a track ends, playback stops exactly at the end of the queue with repeat switched off.
pub proof fn law_stop_at_the_end(s: PlayState, status: SinkStatus)
    requires
        s.wf(),
        s.queue.len() > 0,
        s.loaded,
        status.empty,
        !status.paused,
    ensures
        s.tick_action(status) is Stop <==> s.repeat == 0 && s.index == s.queue.len() - 1,
{
}

/// Repeat one plays the same track again, and never crossfades out of it.
pub proof fn law_repeat_one(s: PlayState, status: SinkStatus)
    requires
        s.wf(),
        s.repeat == 2,
        s.queue.len() <= usize::MAX,
    ensures
        (s.tick_action(status) matches Action::Advance { index, fade } ==> index == s.index && fade
            == 0 && status.empty),
{
}

/// A crossfade is started once: the tick that starts it leaves nothing loaded that another tick
/// could act on, until the next track is chosen.
pub proof fn law_crossfade_once(s: PlayState, status: SinkStatus, later: SinkStatus)
    requires
        s.wf(),
        (s.tick_action(status) matches Action::Advance { index, fade } && fade > 0),
    ensures
        s.ticked(status).tick_action(later) is Idle,
        !(PlayState { loaded: true, ..s.ticked(status) }).crossfade_due(later.position as int),
{
}

/// The sleep timer expires once, and not before its minutes are over.
pub proof fn law_sleep(s: PlayState, minutes: int, set_at: int, now: int)
    requires
        0 < minutes,
        0 <= set_at <= now,
        set_at + minutes * 60 * SECOND <= u128::MAX,
    ensures
        s.sleep_set(minutes, set_at).sleep_event(now) is Expired <==> now - set_at >= minutes * 60
            * SECOND,
        s.sleep_set(minutes, set_at).sleep_event(now) is Expired ==> s.sleep_set(
            minutes,
            set_at,
        ).sleep_checked(now).sleep_event(now) is Off,
{
}

/// When a loaded track ends, the one behind it plays next, whatever the repeat mode but repeat one.
/// At the end of the queue repeat all goes back to the first track, and repeat off stops. Repeat
/// one plays the same track again. Nothing else changes.
pub proof fn law_ended_track_makes_way(s: PlayState, status: SinkStatus)
    requires
        s.wf(),
        s.queue.len() <= usize::MAX,
        s.loaded,
        status.empty,
        !status.paused,
    ensures
        s.repeat != 2 && s.index + 1 < s.queue.len() ==> (s.tick_action(
            status,
        ) matches Action::Advance { index, fade } && index == s.index + 1 && fade == 0),
        s.repeat == 1 && s.index + 1 == s.queue.len() ==> (s.tick_action(
            status,
        ) matches Action::Advance { index, fade } && index == 0 && fade == 0),
        s.repeat == 2 ==> (s.tick_action(status) matches Action::Advance { index, fade } && index
            == s.index && fade == 0),
        s.repeat == 0 && s.index + 1 >= s.queue.len() ==> s.tick_action(status) is Stop,
        s.repeat == 1 && s.queue.len() == 0 ==> s.tick_action(status) is Stop,
        s.ticked(status) == s,
{
}

/// With repeat all, track after track that ends leads through the whole queue: from any place on,
/// the track that plays next is the one behind, around the end.
pub proof fn law_repeat_all_goes_round(s: PlayState, status: SinkStatus)
    requires
        s.wf(),
        0 < s.queue.len() <= usize::MAX,
        s.loaded,
        s.repeat == 1,
        status.empty,
        !status.paused,
    ensures
        (s.tick_action(status) matches Action::Advance { index, fade } && index == (s.index + 1) % (
        s.queue.len() as int)),
{
    let n = s.queue.len() as int;
    if s.index + 1 < n {
        lemma_small_mod((s.index + 1) as nat, n as nat);
    } else {
        assert((s.index + 1) % n == 0) by (nonlinear_arith)
            requires
                s.index + 1 == n,
                n > 0,
        ;
    }
}

/// A tick does nothing while nothing is loaded or the loaded track is paused.
pub proof fn law_tick_waits(s: PlayState, status: SinkStatus)
    requires
        !s.loaded || status.paused,
    ensures
        s.tick_action(status) is Idle,
        s.ticked(status) == s,
{
}

/// While a track plays, the crossfade starts exactly where it is switched on and not under way, at
/// most as many seconds as it is long are left of a track of known length, repeat one is off, and
/// there is another track to go to: the next one, or with repeat all the first one. Then the loaded
/// track is let go and the next one fades in. Otherwise the position is shown, and nothing changes.
pub proof fn law_crossfade_starts(s: PlayState, status: SinkStatus)
    requires
        s.wf(),
        s.queue.len() <= usize::MAX,
        0 <= s.duration <= u128::MAX,
        s.loaded,
        !status.empty,
        !status.paused,
    ensures
        ({
            let another = s.index + 1 < s.queue.len() || (s.repeat == 1 && s.queue.len() > 1);
            let near = 0 < s.duration - status.position <= s.crossfade * 1_000_000_000;
            if s.crossfade > 0 && !s.crossfading && near && s.repeat != 2 && another {
                &&& (s.tick_action(status) matches Action::Advance { index, fade } && {
                    &&& fade == s.crossfade
                    &&& s.index + 1 < s.queue.len() ==> index == s.index + 1
                    &&& s.index + 1 == s.queue.len() ==> index == 0
                })
                &&& s.ticked(status) == (PlayState { crossfading: true, loaded: false, ..s })
            } else {
                &&& (s.tick_action(status) matches Action::Update { position, duration } && {
                    &&& position == status.position
                    &&& duration == s.duration
                })
                &&& s.ticked(status) == s
            }
        }),
{
}

/// The sleep timer is off where no minutes are set. Else it shows the whole seconds that are left
/// until the minutes are over. Setting it and looking at it changes nothing else, and looking at it
/// before its time changes nothing at all.
pub proof fn law_sleep_counts_down(s: PlayState, minutes: int, set_at: int, now: int)
    requires
        0 <= set_at <= now,
        set_at + minutes * 60 * SECOND <= u128::MAX,
    ensures
        ({
            let set = s.sleep_set(minutes, set_at);
            let left = set_at + minutes * 60_000_000_000 - now;
            &&& set == (PlayState { sleep_deadline: set.sleep_deadline, ..s })
            &&& minutes <= 0 ==> set.sleep_event(now) is Off
            &&& minutes > 0 && left > 0 ==> (set.sleep_event(now) matches SleepEvent::Remaining {
                secs,
            } && secs * 1_000_000_000 <= left < (secs + 1) * 1_000_000_000)
            &&& minutes > 0 && left <= 0 ==> set.sleep_event(now) is Expired
            &&& minutes <= 0 || left > 0 ==> set.sleep_checked(now) == set
            &&& minutes > 0 && left <= 0 ==> set.sleep_checked(now) == (PlayState {
                sleep_deadline: None,
                ..s
            })
        }),
{
}

/// Choosing a track goes to its place, or to the last place where there is none so far. What was
/// loaded is let go, a crossfade is over, and everything else stays.
pub proof fn law_chosen_track_is_current(s: PlayState, index: int)
    requires
        0 <= index,
    ensures
        s.queue.len() == 0 ==> s.selected(index) == s,
        s.queue.len() > 0 ==> {
            let t = s.selected(index);
            &&& index < s.queue.len() ==> t.current() == Some(s.queue[index]) && t.index == index
            &&& index >= s.queue.len() ==> t.current() == Some(s.queue.last()) && t.index
                == s.queue.len() - 1
            &&& !t.loaded
            &&& !t.crossfading
            &&& t == (PlayState { index: t.index, loaded: false, crossfading: false, ..s })
        },
{
}

/// What is queued in order is the list itself, at the clicked track; the settings stay.
pub proof fn law_queued_in_order(s: PlayState, tracks: Seq<Track>, start: int)
    requires
        tracks.len() > 0,
        0 <= start,
    ensures
        ({
            let t = s.queued_in_order(tracks, start);
            &&& t.queue == tracks
            &&& t.original == tracks
            &&& start < tracks.len() ==> t.index == start
            &&& start >= tracks.len() ==> t.index == tracks.len() - 1
            &&& t == (PlayState {
                queue: tracks,
                original: tracks,
                index: t.index,
                loaded: false,
                crossfading: false,
                ..s
            })
        }),
{
}

/// What is queued in random order begins with the clicked track and goes on with the rest; the
/// original order is the list itself, and the settings stay.
pub proof fn law_queued_shuffled(s: PlayState, tracks: Seq<Track>, start: int, rest: Seq<Track>)
    requires
        tracks.len() > 0,
        0 <= start,
    ensures
        ({
            let t = s.queued_shuffled(tracks, start, rest);
            &&& t.queue.len() == 1 + rest.len()
            &&& start < tracks.len() ==> t.queue[0] == tracks[start]
            &&& start >= tracks.len() ==> t.queue[0] == tracks.last()
            &&& t.queue.drop_first() == rest
            &&& t == (PlayState {
                queue: t.queue,
                original: tracks,
                index: 0,
                loaded: false,
                crossfading: false,
                ..s
            })
        }),
{
    let t = s.queued_shuffled(tracks, start, rest);
    assert(t.queue.drop_first() =~= rest);
}

/// The place of the playing file in the original order is the first that has it.
proof fn lemma_place(s: PlayState)
    ensures
        (s.current() matches Some(t) ==> {
            let at = s.current_in_original();
            &&& 0 <= at <= s.original.len()
            &&& at < s.original.len() ==> s.original[at].path@ == t.path@
            &&& forall|k: int| 0 <= k < at ==> (#[trigger] s.original[k]).path@ != t.path@
        }),
{
    if let Some(t) = s.current() {
        lemma_position_of(s.original, t.path@);
    }
}

/// Switched on, shuffle puts the playing file in front of the rest, and the rest is what the
/// original order has of other files. Where the original order lacks the playing file, there is the
/// rest alone. Nothing but the play order and the switch changes.
pub proof fn law_shuffle_switched_on(s: PlayState, rest: Seq<Track>)
    requires
        s.wf(),
    ensures
        ({
            let t = s.shuffled(rest);
            &&& t == (PlayState { queue: t.queue, index: 0, shuffle: true, ..s })
            &&& forall|k: int|
                {
                    &&& s.index < s.queue.len()
                    &&& 0 <= k < s.original.len()
                    &&& (#[trigger] s.original[k]).path@ == s.queue[s.index].path@
                    &&& forall|j: int|
                        0 <= j < k ==> (#[trigger] s.original[j]).path@
                            != s.queue[s.index].path@
                } ==> t.queue == seq![s.original[k]] + rest
            &&& s.index >= s.queue.len() || (forall|k: int|
                0 <= k < s.original.len() ==> (#[trigger] s.original[k]).path@
                    != s.queue[s.index].path@) ==> t.queue == rest
        }),
        s.index < s.queue.len() ==> lists_those(
            s.original,
            s.to_shuffle(),
            |t: Track| t.path@ != s.queue[s.index].path@,
        ),
        s.index >= s.queue.len() ==> s.to_shuffle() == s.original,
{
    lemma_place(s);
    if let Some(t) = s.current() {
        lemma_filter_lists(
            s.original,
            |u: Track| u.path@ != t.path@,
            |t: Track| t.path@ != s.queue[s.index].path@,
        );
        let at = s.current_in_original();
        assert forall|k: int|
            {
                &&& s.index < s.queue.len()
                &&& 0 <= k < s.original.len()
                &&& (#[trigger] s.original[k]).path@ == s.queue[s.index].path@
                &&& forall|j: int|
                    0 <= j < k ==> (#[trigger] s.original[j]).path@ != s.queue[s.index].path@
            } implies s.shuffled(rest).queue == seq![s.original[k]] + rest by {
            if at < k {
                assert(s.original[at].path@ != s.queue[s.index].path@);
            }
            assert(at == k);
        }
        if at < s.original.len() {
            assert(s.original[at].path@ == s.queue[s.index].path@);
        }
    }
    assert(Seq::<Track>::empty() + rest =~= rest);
}

/// Switched off, shuffle gives the original order back, at the first place of the playing file, or
/// at its start where it lacks that file. Nothing but the play order and the switch changes.
pub proof fn law_shuffle_switched_off(s: PlayState)
    requires
        s.wf(),
    ensures
        ({
            let t = s.unshuffled();
            &&& t == (PlayState { queue: s.original, index: t.index, shuffle: false, ..s })
            &&& forall|k: int|
                {
                    &&& s.index < s.queue.len()
                    &&& 0 <= k < s.original.len()
                    &&& (#[trigger] s.original[k]).path@ == s.queue[s.index].path@
                    &&& forall|j: int|
                        0 <= j < k ==> (#[trigger] s.original[j]).path@
                            != s.queue[s.index].path@
                } ==> t.index == k
            &&& s.index >= s.queue.len() || (forall|k: int|
                0 <= k < s.original.len() ==> (#[trigger] s.original[k]).path@
                    != s.queue[s.index].path@) ==> t.index == 0
        }),
{
    lemma_place(s);
    let at = s.current_in_original();
    if s.current() is Some {
        assert forall|k: int|
            {
                &&& s.index < s.queue.len()
                &&& 0 <= k < s.original.len()
                &&& (#[trigger] s.original[k]).path@ == s.queue[s.index].path@
                &&& forall|j: int|
                    0 <= j < k ==> (#[trigger] s.original[j]).path@ != s.queue[s.index].path@
            } implies s.unshuffled().index == k by {
            if at < k {
                assert(s.original[at].path@ != s.queue[s.index].path@);
            }
            assert(at == k);
        }
        if at < s.original.len() {
            assert(s.original[at].path@ == s.queue[s.index].path@);
        }
    }
}

/// The next track is the one behind, the previous one the one before; the ends of the queue meet.
pub proof fn law_neighbours(s: PlayState)
    requires
        s.wf(),
        s.queue.len() > 0,
    ensures
        s.index + 1 < s.queue.len() ==> s.next() == s.index + 1,
        s.index + 1 == s.queue.len() ==> s.next() == 0,
        s.index > 0 ==> s.prev() == s.index - 1,
        s.index == 0 ==> s.prev() == s.queue.len() - 1,
{
    let n = s.queue.len() as int;
    if s.index + 1 < n {
        lemma_small_mod((s.index + 1) as nat, n as nat);
    } else {
        assert((s.index + 1) % n == 0) by (nonlinear_arith)
            requires
                s.index + 1 == n,
                n > 0,
        ;
    }
}

/// The repeat modes follow each other: off, all, one, and off again. Nothing else changes.
pub proof fn law_repeat_modes_follow(s: PlayState)
    ensures
        s.repeat == 0 ==> s.repeat_cycled() == (PlayState { repeat: 1, ..s }),
        s.repeat == 1 ==> s.repeat_cycled() == (PlayState { repeat: 2, ..s }),
        s.repeat == 2 ==> s.repeat_cycled() == (PlayState { repeat: 0, ..s }),
{
}

/// A track that is moved stands at its new place, and without it the queue is what it was without
/// it before. A move from or to nowhere changes nothing, and no move changes anything but the play
/// order and the playing place.
pub proof fn law_moved_track_lands(s: PlayState, from: int, to: int)
    requires
        s.wf(),
    ensures
        ({
            let t = s.moved(from, to);
            &&& t == (PlayState { queue: t.queue, index: t.index, ..s })
            &&& 0 <= from < s.queue.len() && 0 <= to < s.queue.len() ==> {
                &&& t.queue.len() == s.queue.len()
                &&& t.queue[to] == s.queue[from]
                &&& t.queue.remove(to) == s.queue.remove(from)
                &&& s.index == from ==> t.index == to
                &&& s.index != from && s.index < from && s.index < to ==> t.index == s.index
                &&& s.index != from && s.index > from && s.index > to ==> t.index == s.index
                &&& from < s.index <= to ==> t.index == s.index - 1
                &&& to <= s.index < from ==> t.index == s.index + 1
            }
            &&& !(0 <= from < s.queue.len() && 0 <= to < s.queue.len()) ==> t == s
        }),
{
    let t = s.moved(from, to);
    if 0 <= from < s.queue.len() && 0 <= to < s.queue.len() {
        assert(t.queue.remove(to) =~= s.queue.remove(from));
    }
}

/// A track that is removed leaves the queue, and its file leaves the original order, where the
/// others stay as they are. The playing track and a place that is none are left alone, and nothing
/// else changes.
pub proof fn law_removed_track_is_gone(s: PlayState, i: int)
    requires
        s.wf(),
    ensures
        ({
            let t = s.removed(i);
            &&& t == (PlayState { queue: t.queue, original: t.original, index: t.index, ..s })
            &&& 0 <= i < s.queue.len() && i != s.index ==> {
                &&& t.queue == s.queue.remove(i)
                &&& lists_those(
                    s.original,
                    t.original,
                    |t: Track| t.path@ != s.queue[i].path@,
                )
                &&& i < s.index ==> t.index == s.index - 1
                &&& i > s.index ==> t.index == s.index
            }
            &&& !(0 <= i < s.queue.len()) || i == s.index ==> t == s
        }),
{
    if 0 <= i < s.queue.len() && i != s.index {
        let keep = |t: Track| t.path@ != s.queue[i].path@;
        lemma_filter_lists(s.original, keep, keep);
    }
}

/// The text of the queue panel counts the playing track from one and names the length of the
/// queue, both as plain numerals, and says where shuffle is on.
pub proof fn law_queue_info_counts(s: PlayState)
    requires
        0 <= s.index < s.queue.len(),
    ensures
        exists|at: Seq<char>, of: Seq<char>|
            {
                &&& plain_numeral(at, s.index + 1)
                &&& plain_numeral(of, s.queue.len() as int)
                &&& !s.shuffle ==> queue_info_text(s) == #[trigger] ("Faixa "@ + at) + #[trigger] (
                " de "@ + of)
                &&& s.shuffle ==> queue_info_text(s) == ("Faixa "@ + at) + (" de "@ + of)
                    + "  ·  aleatório"@
            },
{
    let at = decimal((s.index + 1) as nat);
    let of = decimal(s.queue.len());
    law_numeral((s.index + 1) as nat);
    law_numeral(s.queue.len());
    assert(queue_info_text(s) =~= if s.shuffle {
        ("Faixa "@ + at) + (" de "@ + of) + "  ·  aleatório"@
    } else {
        ("Faixa "@ + at) + (" de "@ + of)
    });
}

/// Digits without a zero in front that write the number.
pub open spec fn plain_numeral(s: Seq<char>, n: int) -> bool {
    &&& s.len() > 0
    &&& forall|i: int| 0 <= i < s.len() ==> '0' <= #[trigger] s[i] <= '9'
    &&& s[0] != '0'
    &&& numeral_value(s) == n
}

/// At first nothing is queued, chosen or loaded, and every setting is off.
pub proof fn law_player_starts_empty()
    ensures
        ({
            let s = PlayState::initial();
            &&& s.queue.len() == 0
            &&& s.original.len() == 0
            &&& s.index == 0
            &&& s.current() is None
            &&& !s.shuffle
            &&& s.repeat == 0
            &&& s.duration == 0
            &&& s.normalization == 0
            &&& !s.mono
            &&& s.crossfade == 0
            &&& !s.crossfading
            &&& s.sleep_deadline is None
            &&& !s.loaded
        }),
{
}

/// The playing track is the one at the playing place, where there is one.
pub proof fn law_current_track(s: PlayState)
    requires
        0 <= s.index,
    ensures
        s.index < s.queue.len() ==> s.current() == Some(s.queue[s.index]),
        s.index >= s.queue.len() ==> s.current() is None,
{
}

/// A number is held between its bounds: it stays where it is between them, and else becomes the
/// nearer one.
pub proof fn law_held_within(n: int, low: int, high: int)
    requires
        low <= high,
    ensures
        low <= within(n, low, high) <= high,
        low <= n <= high ==> within(n, low, high) == n,
        n < low ==> within(n, low, high) == low,
        n > high ==> within(n, low, high) == high,
{
}

/// The quiet preset is softer than the normal one, the normal one is softer than no preset, and the
/// loud one is louder; a number that is no preset changes nothing.
pub proof fn law_gains_of_presets(preset: int)
    ensures
        preset == 1 ==> gain_of(preset) == 55,
        preset == 2 ==> gain_of(preset) == 85,
        preset == 3 ==> gain_of(preset) == 120,
        preset <= 0 || preset > 3 ==> gain_of(preset) == 100,
{
}

} // verus!
