//! The playback queue.

use ohm_player::playback::sleep_remaining;
use ohm_player::playback::Action;
use ohm_player::playback::AudioState;
use ohm_player::playback::PlayPause;
use ohm_player::playback::SinkStatus;
use ohm_player::playback::SleepEvent;
use ohm_player::playback::SECOND;
use ohm_player::track::Track;

fn track(name: &str) -> Track {
    Track {
        path: format!("/music/{name}.mp3"),
        title: name.to_string(),
        artist: format!("artist of {name}"),
        album: String::new(),
        is_voice: false,
    }
}

fn tracks(names: &str) -> Vec<Track> {
    names.chars().map(|c| track(&c.to_string())).collect()
}

fn order(state: &AudioState) -> String {
    state.queue().iter().map(|t| t.title.clone()).collect()
}

fn original(state: &AudioState) -> String {
    state.original().iter().map(|t| t.title.clone()).collect()
}

fn sorted(text: &str) -> String {
    let mut chars: Vec<char> = text.chars().collect();
    chars.sort();
    chars.into_iter().collect()
}

fn playing(names: &str, start: usize) -> AudioState {
    let mut state = AudioState::new();
    state.start_queue(tracks(names), start);
    state.set_loaded();
    state
}

fn repeat(state: &mut AudioState, mode: i32) {
    while state.repeat() != mode {
        state.cycle_repeat();
    }
}

fn ended() -> SinkStatus {
    SinkStatus { empty: true, paused: false, position: 0 }
}

fn at(position: u128) -> SinkStatus {
    SinkStatus { empty: false, paused: false, position }
}

#[test]
fn nothing_is_queued_at_first() {
    let mut state = AudioState::new();
    assert!(state.queue_info().is_none());
    assert!(state.next_track().is_none());
    assert!(state.prev_track().is_none());
    assert!(state.play_at(3).is_none());
    assert!(state.start_queue(Vec::new(), 0).is_none());
    assert!(matches!(state.play_pause(true), PlayPause::Nothing));
    assert!(matches!(state.tick(ended()), Action::Idle));
    assert!(state.queue_items().is_empty());
}

#[test]
fn queue_starts_at_the_clicked_track() {
    let mut state = AudioState::new();
    let first = state.start_queue(tracks("abcd"), 2).unwrap();
    assert_eq!(first.title, "c");
    assert_eq!(order(&state), "abcd");
    assert_eq!(original(&state), "abcd");
    assert_eq!(state.index(), 2);
    assert_eq!(state.queue_info().unwrap(), "Faixa 3 de 4");
}

#[test]
fn start_beyond_the_end_is_the_last_track() {
    let mut state = AudioState::new();
    assert_eq!(state.start_queue(tracks("abc"), 9).unwrap().title, "c");
    assert_eq!(state.index(), 2);
    assert_eq!(state.play_at(usize::MAX).unwrap().title, "c");
    state.toggle_shuffle();
    assert_eq!(state.start_queue(tracks("xyz"), 9).unwrap().title, "z");
    assert_eq!(state.index(), 0);
}

#[test]
fn shuffled_start_plays_every_track_once() {
    let names = "abcdefghijklmnopqrstuvwxyz0123456789";
    let mut state = AudioState::new();
    state.toggle_shuffle();
    let mut orders: Vec<String> = Vec::new();
    for _ in 0..4 {
        let first = state.start_queue(tracks(names), 5).unwrap();
        assert_eq!(first.title, "f");
        let queued = order(&state);
        assert!(queued.starts_with('f'));
        assert_eq!(sorted(&queued), sorted(names));
        assert_eq!(original(&state), names);
        assert_eq!(state.index(), 0);
        orders.push(queued);
    }
    // Four shuffles of 35 tracks that all leave them as they were do not happen.
    assert!(orders.iter().any(|o| *o != "fabcdeghijklmnopqrstuvwxyz0123456789"));
    assert_eq!(state.queue_info().unwrap(), "Faixa 1 de 36  ·  aleatório");
}

#[test]
fn start_with_a_given_rest() {
    let mut state = AudioState::new();
    let first = state.start_queue_with(tracks("abc"), 1, tracks("ca")).unwrap();
    assert_eq!(first.title, "b");
    assert_eq!(order(&state), "bca");
    assert_eq!(original(&state), "abc");
}

#[test]
fn shuffle_on_and_off_again() {
    let mut state = playing("abcdefgh", 3);
    state.toggle_shuffle();
    assert!(state.shuffle());
    assert_eq!(state.index(), 0);
    assert_eq!(state.queue()[0].title, "d");
    assert_eq!(sorted(&order(&state)), "abcdefgh");
    assert_eq!(original(&state), "abcdefgh");
    state.toggle_shuffle();
    assert!(!state.shuffle());
    assert_eq!(order(&state), "abcdefgh");
    assert_eq!(state.index(), 3);
}

#[test]
fn shuffle_with_a_given_rest() {
    let mut state = playing("abc", 1);
    let rest: String = state.shuffle_rest().iter().map(|t| t.title.clone()).collect();
    assert_eq!(rest, "ac");
    state.toggle_shuffle_with(tracks("ca"));
    assert_eq!(order(&state), "bca");
    state.play_at(2);
    state.toggle_shuffle_with(Vec::new());
    assert_eq!(order(&state), "abc");
    assert_eq!(state.index(), 0);
}

#[test]
fn shuffle_of_an_empty_queue() {
    let mut state = AudioState::new();
    state.toggle_shuffle();
    assert!(state.shuffle());
    assert!(state.queue().is_empty());
    state.toggle_shuffle();
    assert!(!state.shuffle());
    assert_eq!(state.index(), 0);
}

#[test]
fn next_and_previous_go_round() {
    let mut state = playing("abc", 0);
    assert_eq!(state.prev_track(), Some(2));
    let mut seen = String::new();
    for _ in 0..6 {
        seen.push_str(&state.queue()[state.index()].title.clone());
        let next = state.next_track().unwrap();
        state.play_at(next);
    }
    assert_eq!(seen, "abcabc");
    let back = state.prev_track().unwrap();
    state.play_at(back);
    assert_eq!(state.next_track(), Some(0));
}

#[test]
fn repeat_goes_through_its_modes() {
    let mut state = AudioState::new();
    let mut seen = vec![state.repeat()];
    for _ in 0..3 {
        state.cycle_repeat();
        seen.push(state.repeat());
    }
    assert_eq!(seen, vec![0, 1, 2, 0]);
}

#[test]
fn removing_never_takes_the_playing_track() {
    let mut state = playing("abcd", 2);
    assert!(!state.queue_remove(2));
    assert!(!state.queue_remove(4));
    assert_eq!(order(&state), "abcd");
    assert!(state.queue_remove(0));
    assert_eq!(order(&state), "bcd");
    assert_eq!(original(&state), "bcd");
    assert_eq!(state.queue()[state.index()].title, "c");
    assert!(state.queue_remove(2));
    assert_eq!(order(&state), "bc");
    assert_eq!(state.queue()[state.index()].title, "c");
}

#[test]
fn removing_one_of_two_takes_the_path_from_the_original_order() {
    let mut state = playing("abab", 3);
    assert!(state.queue_remove(0));
    assert_eq!(order(&state), "bab");
    assert_eq!(original(&state), "bb");
}

#[test]
fn moving_keeps_the_playing_track() {
    for from in 0..5 {
        for to in 0..5 {
            let mut state = playing("abcde", 2);
            let moved = state.queue_move(from, to);
            assert_eq!(moved, from != to);
            assert_eq!(state.queue()[state.index()].title, "c");
            assert_eq!(sorted(&order(&state)), "abcde");
            state.queue_move(to, from);
            assert_eq!(order(&state), "abcde");
            assert_eq!(state.index(), 2);
        }
    }
    let mut state = playing("abcde", 2);
    assert!(state.queue_move(0, 3));
    assert_eq!(order(&state), "bcdae");
    assert_eq!(state.index(), 1);
    assert!(!state.queue_move(0, 5));
    assert!(!state.queue_move(5, 0));
    assert_eq!(original(&state), "abcde");
}

#[test]
fn queue_panel_marks_the_loaded_track() {
    let mut state = playing("abc", 1);
    let rows: Vec<(String, bool)> =
        state.queue_items().into_iter().map(|r| (r.title, r.playing)).collect();
    assert_eq!(
        rows,
        vec![("a".to_string(), false), ("b".to_string(), true), ("c".to_string(), false)]
    );
    assert_eq!(state.queue_items()[1].artist, "artist of b");
    state.stop();
    assert!(state.queue_items().iter().all(|r| !r.playing));
}

#[test]
fn play_button() {
    let state = playing("a", 0);
    assert!(matches!(state.play_pause(true), PlayPause::Resume));
    assert!(matches!(state.play_pause(false), PlayPause::Pause));
}

#[test]
fn a_track_that_ends_makes_way() {
    let mut state = playing("abc", 0);
    assert!(matches!(state.tick(ended()), Action::Advance { index: 1, fade: 0 }));
    state.play_at(2);
    state.set_loaded();
    assert!(matches!(state.tick(ended()), Action::Stop));
    repeat(&mut state, 1);
    assert!(matches!(state.tick(ended()), Action::Advance { index: 0, fade: 0 }));
    repeat(&mut state, 2);
    assert!(matches!(state.tick(ended()), Action::Advance { index: 2, fade: 0 }));
    let paused = SinkStatus { empty: true, paused: true, position: 0 };
    assert!(matches!(state.tick(paused), Action::Idle));
}

#[test]
fn a_playing_track_shows_its_position() {
    let mut state = playing("ab", 0);
    state.set_duration(100 * SECOND);
    match state.tick(at(95 * SECOND)) {
        Action::Update { position, duration } => {
            assert_eq!(position, 95 * SECOND);
            assert_eq!(duration, 100 * SECOND);
        }
        _ => panic!("no crossfade is set"),
    }
}

#[test]
fn crossfade_starts_near_the_end_and_once() {
    let mut state = playing("ab", 0);
    state.set_duration(100 * SECOND);
    assert_eq!(state.set_crossfade(5), 5);
    assert!(matches!(state.tick(at(95 * SECOND - 1)), Action::Update { .. }));
    assert!(matches!(state.tick(at(95 * SECOND)), Action::Advance { index: 1, fade: 5 }));
    assert!(!state.loaded());
    assert!(matches!(state.tick(at(96 * SECOND)), Action::Idle));
    state.set_loaded();
    assert!(matches!(state.tick(at(96 * SECOND)), Action::Update { .. }));
    // The next track may crossfade again.
    state.play_at(0);
    state.set_loaded();
    assert!(matches!(state.tick(at(96 * SECOND)), Action::Advance { index: 1, fade: 5 }));
}

#[test]
fn crossfade_needs_somewhere_to_go() {
    let mut state = playing("ab", 1);
    state.set_duration(100 * SECOND);
    state.set_crossfade(12);
    let near = 99 * SECOND;
    assert!(matches!(state.tick(at(near)), Action::Update { .. }));
    repeat(&mut state, 2);
    assert!(matches!(state.tick(at(near)), Action::Update { .. }));
    repeat(&mut state, 1);
    assert!(matches!(state.tick(at(near)), Action::Advance { index: 0, fade: 12 }));

    let mut alone = playing("a", 0);
    alone.set_duration(100 * SECOND);
    alone.set_crossfade(12);
    repeat(&mut alone, 1);
    assert!(matches!(alone.tick(at(near)), Action::Update { .. }));
}

#[test]
fn crossfade_needs_a_known_duration() {
    let mut state = playing("ab", 0);
    state.set_crossfade(12);
    assert!(matches!(state.tick(at(SECOND)), Action::Update { duration: 0, .. }));
    state.set_duration(10 * SECOND);
    assert!(matches!(state.tick(at(10 * SECOND)), Action::Update { .. }));
}

#[test]
fn crossfade_length_is_held_in_its_range() {
    let mut state = AudioState::new();
    assert_eq!(state.set_crossfade(-3), 0);
    assert_eq!(state.set_crossfade(13), 12);
    assert_eq!(state.crossfade(), 12);
}

#[test]
fn sleep_timer_expires_once() {
    let mut state = AudioState::new();
    assert!(matches!(state.check_sleep(0), SleepEvent::Off));
    assert_eq!(state.set_sleep(2, 10 * SECOND), 2);
    assert!(matches!(state.check_sleep(10 * SECOND), SleepEvent::Remaining { secs: 120 }));
    assert!(matches!(state.check_sleep(130 * SECOND - 1), SleepEvent::Remaining { secs: 0 }));
    assert!(matches!(state.check_sleep(130 * SECOND), SleepEvent::Expired));
    assert!(matches!(state.check_sleep(130 * SECOND), SleepEvent::Off));
    state.set_sleep(1, 0);
    assert_eq!(state.set_sleep(-1, 0), 0);
    assert!(matches!(state.check_sleep(u128::MAX), SleepEvent::Off));
}

#[test]
fn sleep_timer_shows_what_is_left() {
    assert_eq!(sleep_remaining(0), "⏳ 0:00");
    assert_eq!(sleep_remaining(61), "⏳ 1:01");
    assert_eq!(sleep_remaining(3600), "⏳ 60:00");
}

#[test]
fn normalization_presets_have_gains() {
    let mut state = AudioState::new();
    let mut gains: Vec<u32> = Vec::new();
    for mode in -1..5 {
        state.set_normalization(mode);
        gains.push(state.normalization_gain());
    }
    assert_eq!(gains, vec![100, 100, 55, 85, 120, 100]);
    state.set_mono(true);
    assert!(state.mono());
}
