//! Settings: the key and value store, and what the player keeps in it.

use vstd::prelude::*;

use crate::db::find_setting;
use crate::db::setting_pairs;
use crate::db::Db;
use crate::playback::clamp;
use crate::playback::within;
use crate::playback::AudioState;
use crate::playback::PlayState;
use crate::tables::lemma_map_of;
use crate::tables::map_of;
use crate::tables::text_view;
use crate::tables::Change;
use crate::tables::ChangeData;
use crate::tables::Tables;
use crate::text::decimal;
use crate::text::law_parse_reads_back;
use crate::text::parse_i32;
use crate::text::parsed_i32;
use crate::text::signed_decimal;
use crate::text::signed_to_string;

verus! {

/// The value of a setting, if it has one.
pub open spec fn setting_of(t: Tables, key: Seq<char>) -> Option<Seq<char>> {
    if t.settings.contains_key(key) {
        Some(t.settings[key])
    } else {
        None
    }
}

/// The value of a setting as a number; `default` where it has none or is no number.
pub open spec fn int_setting(t: Tables, key: Seq<char>, default: int) -> int {
    match setting_of(t, key) {
        Some(v) => match parsed_i32(v) {
            Some(n) => n,
            None => default,
        },
        None => default,
    }
}

/// The change that keeps a setting.
pub open spec fn keeping(key: Seq<char>, value: Seq<char>) -> ChangeData {
    ChangeData::SetSetting { key, value }
}

/// The settings that are read when the player starts.
pub struct Settings {
    pub crossfade: i32,
    pub normalization: i32,
    pub mono: bool,
    pub eq_preset: i32,
}

/// The gains of an equalizer preset in decibels.
pub struct EqGains {
    pub bass: i32,
    pub mid: i32,
    pub treble: i32,
}

/// The gains of a preset: rock, classical, bass boost and pop, else flat.
pub open spec fn preset_gains(preset: i32) -> EqGains {
    if preset == 1 {
        EqGains { bass: 4, mid: 1, treble: 3 }
    } else if preset == 2 {
        EqGains { bass: (-1) as i32, mid: 2, treble: 4 }
    } else if preset == 3 {
        EqGains { bass: 8, mid: 1, treble: (-1) as i32 }
    } else if preset == 4 {
        EqGains { bass: 2, mid: 3, treble: 2 }
    } else {
        EqGains { bass: 0, mid: 0, treble: 0 }
    }
}

/// The playback state with the settings of the store.
pub open spec fn with_settings(s: PlayState, t: Tables) -> PlayState {
    PlayState {
        crossfade: within(int_setting(t, "crossfade"@, 0), 0, 12),
        normalization: within(int_setting(t, "normalization"@, 0), 0, 3),
        mono: int_setting(t, "mono"@, 0) != 0,
        ..s
    }
}

/// The changes that keep a preset and its gains.
pub open spec fn preset_changes(preset: i32) -> Seq<ChangeData> {
    let gains = preset_gains(preset);
    seq![
        keeping("eq_preset"@, signed_decimal(preset as int)),
        keeping("eq_bass"@, signed_decimal(gains.bass as int)),
        keeping("eq_mid"@, signed_decimal(gains.mid as int)),
        keeping("eq_treble"@, signed_decimal(gains.treble as int)),
    ]
}

/// The changes that keep gains set by hand.
pub open spec fn gain_changes(bass: Seq<char>, mid: Seq<char>, treble: Seq<char>) -> Seq<
    ChangeData,
> {
    seq![
        keeping("eq_bass"@, bass),
        keeping("eq_mid"@, mid),
        keeping("eq_treble"@, treble),
        keeping("eq_preset"@, "-1"@),
    ]
}

impl Db {
    /// The value of a setting, if it has one.
    pub fn get_setting(&self, key: &str) -> (r: Option<String>)
        requires
            self.wf(),
        ensures
            text_view(r) == setting_of(self.tables(), key@),
    {
        let ghost pairs = setting_pairs(self.rows.settings@);
        proof {
            lemma_map_of(pairs);
        }
        match find_setting(&self.rows.settings, key) {
            Some(i) => {
                assert(pairs[i as int].0 == key@);
                Some(self.rows.settings[i].value.clone())
            },
            None => {
                proof {
                    if map_of(pairs).contains_key(key@) {
                        let k = choose|k: int|
                            0 <= k < pairs.len() && (#[trigger] pairs[k]).0 == key@;
                        assert(self.rows.settings@[k].key@ == key@);
                    }
                }
                None
            },
        }
    }

    /// Gives a setting a value.
    pub fn set_setting(&mut self, key: &str, value: &str)
        requires
            old(self).wf(),
        ensures
            final(self).wf(),
            final(self).after(old(self), Some(keeping(key@, value@))),
    {
        self.commit(Change::SetSetting { key: key.to_owned(), value: value.to_owned() });
    }

    /// The value of a setting as a number; `default` where it has none or is no number.
    pub fn int_setting(&self, key: &str, default: i32) -> (r: i32)
        requires
            self.wf(),
        ensures
            r == int_setting(self.tables(), key@, default as int),
    {
        match self.get_setting(key) {
            Some(v) => match parse_i32(v.as_str()) {
                Some(n) => n,
                None => default,
            },
            None => default,
        }
    }
}

/// Reads the settings that the player starts with, and takes them into the playback state.
pub fn load_settings(state: &mut AudioState, db: &Db) -> (r: Settings)
    requires
        old(state).wf(),
        db.wf(),
    ensures
        final(state).wf(),
        final(state)@ == with_settings(old(state)@, db.tables()),
        r.crossfade == final(state)@.crossfade,
        r.normalization == final(state)@.normalization,
        r.mono == final(state)@.mono,
        r.eq_preset == int_setting(db.tables(), "eq_preset"@, 0),
{
    let crossfade: i32 = clamp(db.int_setting("crossfade", 0), 0, 12);
    let normalization: i32 = clamp(db.int_setting("normalization", 0), 0, 3);
    let mono: bool = db.int_setting("mono", 0) != 0;
    let eq_preset: i32 = db.int_setting("eq_preset", 0);
    state.crossfade = crossfade;
    state.normalization = normalization;
    state.mono = mono;
    Settings { crossfade, normalization, mono, eq_preset }
}

/// Sets the crossfade length, at most twelve seconds, and keeps it. Returns the length.
pub fn set_crossfade(state: &mut AudioState, db: &mut Db, secs: i32) -> (r: i32)
    requires
        old(state).wf(),
        old(db).wf(),
    ensures
        final(state).wf(),
        final(db).wf(),
        r == within(secs as int, 0, 12),
        final(state)@ == (PlayState { crossfade: r as int, ..old(state)@ }),
        final(db).after(old(db), Some(keeping("crossfade"@, signed_decimal(r as int)))),
{
    let secs: i32 = state.set_crossfade(secs);
    db.set_setting("crossfade", signed_to_string(secs).as_str());
    secs
}

/// Sets the normalization preset and keeps it.
pub fn set_normalization(state: &mut AudioState, db: &mut Db, mode: i32)
    requires
        old(state).wf(),
        old(db).wf(),
    ensures
        final(state).wf(),
        final(db).wf(),
        final(state)@ == (PlayState { normalization: mode as int, ..old(state)@ }),
        final(db).after(old(db), Some(keeping("normalization"@, signed_decimal(mode as int)))),
{
    state.set_normalization(mode);
    db.set_setting("normalization", signed_to_string(mode).as_str());
}

/// Sets mono output and keeps it.
pub fn set_mono(state: &mut AudioState, db: &mut Db, mono: bool)
    requires
        old(state).wf(),
        old(db).wf(),
    ensures
        final(state).wf(),
        final(db).wf(),
        final(state)@ == (PlayState { mono, ..old(state)@ }),
        final(db).after(
            old(db),
            Some(
                keeping(
                    "mono"@,
                    if mono {
                        "1"@
                    } else {
                        "0"@
                    },
                ),
            ),
        ),
{
    state.set_mono(mono);
    db.set_setting("mono", if mono { "1" } else { "0" });
}

/// The gains of an equalizer preset.
pub fn eq_gains(preset: i32) -> (r: EqGains)
    ensures
        r == preset_gains(preset),
{
    match preset {
        1 => EqGains { bass: 4, mid: 1, treble: 3 },
        2 => EqGains { bass: -1, mid: 2, treble: 4 },
        3 => EqGains { bass: 8, mid: 1, treble: -1 },
        4 => EqGains { bass: 2, mid: 3, treble: 2 },
        _ => EqGains { bass: 0, mid: 0, treble: 0 },
    }
}

/// Chooses an equalizer preset, and keeps it with its gains. Returns the gains.
pub fn set_eq_preset(db: &mut Db, preset: i32) -> (r: EqGains)
    requires
        old(db).wf(),
    ensures
        final(db).wf(),
        r == preset_gains(preset),
        final(db).after_all(old(db), preset_changes(preset)),
{
    let gains: EqGains = eq_gains(preset);
    db.set_setting("eq_preset", signed_to_string(preset).as_str());
    db.set_setting("eq_bass", signed_to_string(gains.bass).as_str());
    db.set_setting("eq_mid", signed_to_string(gains.mid).as_str());
    db.set_setting("eq_treble", signed_to_string(gains.treble).as_str());
    proof {
        let c = preset_changes(preset);
        lemma_replay_four(old(db).tables(), c[0], c[1], c[2], c[3]);
        lemma_settings_accepted(old(db).tables(), c);
        assert(db.changes() =~= old(db).changes() + c);
    }
    gains
}

/// Keeps equalizer gains that were set by hand; they belong to no preset.
pub fn eq_changed(db: &mut Db, bass: &str, mid: &str, treble: &str)
    requires
        old(db).wf(),
    ensures
        final(db).wf(),
        final(db).after_all(old(db), gain_changes(bass@, mid@, treble@)),
{
    db.set_setting("eq_bass", bass);
    db.set_setting("eq_mid", mid);
    db.set_setting("eq_treble", treble);
    db.set_setting("eq_preset", "-1");
    proof {
        let c = gain_changes(bass@, mid@, treble@);
        lemma_replay_four(old(db).tables(), c[0], c[1], c[2], c[3]);
        lemma_settings_accepted(old(db).tables(), c);
        assert(db.changes() =~= old(db).changes() + c);
    }
}

/// Settings can always be kept.
proof fn lemma_settings_accepted(t: Tables, changes: Seq<ChangeData>)
    requires
        forall|i: int| 0 <= i < changes.len() ==> #[trigger] changes[i] is SetSetting,
    ensures
        t.accepts_all(changes),
    decreases changes.len(),
{
    if changes.len() > 0 {
        let shorter = changes.drop_last();
        assert forall|i: int| 0 <= i < shorter.len() implies #[trigger] shorter[i] is SetSetting by {
            assert(shorter[i] == changes[i]);
        }
        lemma_settings_accepted(t, shorter);
        assert(changes[changes.len() - 1] is SetSetting);
    }
}

proof fn lemma_replay_four(t: Tables, a: ChangeData, b: ChangeData, c: ChangeData, d: ChangeData)
    ensures
        t.replay(seq![a, b, c, d]) == t.apply(a).apply(b).apply(c).apply(d),
{
    assert(seq![a, b, c, d].drop_last() =~= seq![a, b, c]);
    assert(seq![a, b, c].drop_last() =~= seq![a, b]);
    assert(seq![a, b].drop_last() =~= seq![a]);
    assert(seq![a].drop_last() =~= Seq::<ChangeData>::empty());
    reveal_with_fuel(Tables::replay, 5);
}

/// A setting reads back as it was last written, and no other setting changes.
pub proof fn law_settings_read_back(
    t: Tables,
    key: Seq<char>,
    value: Seq<char>,
    other: Seq<char>,
)
    ensures
        setting_of(t.apply(keeping(key, value)), key) == Some(value),
        other != key ==> setting_of(t.apply(keeping(key, value)), other) == setting_of(t, other),
{
}

/// A number that was kept is read back as that number.
pub proof fn law_numbers_read_back(t: Tables, key: Seq<char>, n: i32, default: int)
    ensures
        int_setting(t.apply(keeping(key, signed_decimal(n as int))), key, default) == n,
{
    law_parse_reads_back(n as int);
}

/// A crossfade length, a normalization preset and the mono switch that were kept are those that the
/// player starts with the next time.
pub proof fn law_settings_survive(t: Tables, s: PlayState, crossfade: i32, preset: i32, mono: bool)
    requires
        0 <= crossfade <= 12,
        0 <= preset <= 3,
    ensures
        ({
            let kept = t.apply(keeping("crossfade"@, signed_decimal(crossfade as int))).apply(
                keeping("normalization"@, signed_decimal(preset as int)),
            ).apply(
                keeping(
                    "mono"@,
                    if mono {
                        "1"@
                    } else {
                        "0"@
                    },
                ),
            );
            with_settings(s, kept) == (PlayState {
                crossfade: crossfade as int,
                normalization: preset as int,
                mono,
                ..s
            })
        }),
{
    law_parse_reads_back(crossfade as int);
    law_parse_reads_back(preset as int);
    law_parse_reads_back(0);
    law_parse_reads_back(1);
    reveal_strlit("crossfade");
    reveal_strlit("normalization");
    reveal_strlit("mono");
    reveal_strlit("0");
    reveal_strlit("1");
    assert("crossfade"@.len() != "normalization"@.len());
    assert("crossfade"@.len() != "mono"@.len());
    assert("normalization"@.len() != "mono"@.len());
    assert(signed_decimal(0) =~= "0"@) by {
        reveal_with_fuel(decimal, 2);
    }
    assert(signed_decimal(1) =~= "1"@) by {
        reveal_with_fuel(decimal, 2);
    }
}

/// An equalizer preset and its gains that were kept read back as they are.
pub proof fn law_preset_survives(t: Tables, preset: i32)
    ensures
        ({
            let kept = t.replay(preset_changes(preset));
            let gains = preset_gains(preset);
            &&& int_setting(kept, "eq_preset"@, 0) == preset
            &&& int_setting(kept, "eq_bass"@, 0) == gains.bass
            &&& int_setting(kept, "eq_mid"@, 0) == gains.mid
            &&& int_setting(kept, "eq_treble"@, 0) == gains.treble
        }),
{
    let c = preset_changes(preset);
    let gains = preset_gains(preset);
    lemma_replay_four(t, c[0], c[1], c[2], c[3]);
    law_parse_reads_back(preset as int);
    law_parse_reads_back(gains.bass as int);
    law_parse_reads_back(gains.mid as int);
    law_parse_reads_back(gains.treble as int);
    reveal_strlit("eq_preset");
    reveal_strlit("eq_bass");
    reveal_strlit("eq_mid");
    reveal_strlit("eq_treble");
    assert("eq_preset"@[3] == 'p');
    assert("eq_bass"@[3] == 'b');
    assert("eq_mid"@[3] == 'm');
    assert("eq_treble"@[3] == 't');
}

/// A setting is read as the number that it writes. One that was never kept, and one that writes no
/// number, is read as the default.
pub proof fn law_setting_is_read(t: Tables, key: Seq<char>, default: int)
    ensures
        !t.settings.contains_key(key) ==> {
            &&& setting_of(t, key) is None
            &&& int_setting(t, key, default) == default
        },
        t.settings.contains_key(key) ==> {
            &&& setting_of(t, key) == Some(t.settings[key])
            &&& parsed_i32(t.settings[key]) is None ==> int_setting(t, key, default) == default
            &&& parsed_i32(t.settings[key]) matches Some(n) ==> int_setting(t, key, default) == n
        },
{
}

/// The player starts with the crossfade length and the normalization preset that were kept, held in
/// their ranges, and with mono output where its setting is not zero. Nothing else of the playback
/// state is touched.
pub proof fn law_start_settings(s: PlayState, t: Tables)
    ensures
        ({
            let started = with_settings(s, t);
            let crossfade = int_setting(t, "crossfade"@, 0);
            let preset = int_setting(t, "normalization"@, 0);
            &&& started == (PlayState {
                crossfade: started.crossfade,
                normalization: started.normalization,
                mono: started.mono,
                ..s
            })
            &&& 0 <= crossfade <= 12 ==> started.crossfade == crossfade
            &&& crossfade < 0 ==> started.crossfade == 0
            &&& crossfade > 12 ==> started.crossfade == 12
            &&& 0 <= preset <= 3 ==> started.normalization == preset
            &&& preset < 0 ==> started.normalization == 0
            &&& preset > 3 ==> started.normalization == 3
            &&& started.mono <==> int_setting(t, "mono"@, 0) != 0
        }),
{
}

/// The gains of the presets: rock lifts bass and treble, classical the treble, bass boost the bass
/// above all, pop the middle; any other preset is flat.
pub proof fn law_gains_of_equalizer_presets(preset: i32)
    ensures
        ({
            let g = preset_gains(preset);
            &&& preset == 1 ==> g.bass == 4 && g.mid == 1 && g.treble == 3
            &&& preset == 2 ==> g.bass == -1 && g.mid == 2 && g.treble == 4
            &&& preset == 3 ==> g.bass == 8 && g.mid == 1 && g.treble == -1
            &&& preset == 4 ==> g.bass == 2 && g.mid == 3 && g.treble == 2
            &&& preset < 1 || preset > 4 ==> g.bass == 0 && g.mid == 0 && g.treble == 0
        }),
{
}

/// Gains set by hand read back as they were written, and then no preset is chosen. Neither they nor
/// a preset touch any other setting, nor any other table.
pub proof fn law_equalizer_is_kept(
    t: Tables,
    bass: Seq<char>,
    mid: Seq<char>,
    treble: Seq<char>,
    preset: i32,
    other: Seq<char>,
)
    requires
        other != "eq_preset"@,
        other != "eq_bass"@,
        other != "eq_mid"@,
        other != "eq_treble"@,
    ensures
        ({
            let by_hand = t.replay(gain_changes(bass, mid, treble));
            let chosen = t.replay(preset_changes(preset));
            &&& setting_of(by_hand, "eq_bass"@) == Some(bass)
            &&& setting_of(by_hand, "eq_mid"@) == Some(mid)
            &&& setting_of(by_hand, "eq_treble"@) == Some(treble)
            &&& int_setting(by_hand, "eq_preset"@, 0) == -1
            &&& setting_of(by_hand, other) == setting_of(t, other)
            &&& setting_of(chosen, other) == setting_of(t, other)
            &&& by_hand == (Tables { settings: by_hand.settings, ..t })
            &&& chosen == (Tables { settings: chosen.settings, ..t })
        }),
{
    let c = gain_changes(bass, mid, treble);
    let p = preset_changes(preset);
    lemma_replay_four(t, c[0], c[1], c[2], c[3]);
    lemma_replay_four(t, p[0], p[1], p[2], p[3]);
    law_parse_reads_back(-1);
    reveal_strlit("eq_preset");
    reveal_strlit("eq_bass");
    reveal_strlit("eq_mid");
    reveal_strlit("eq_treble");
    reveal_strlit("-1");
    assert("eq_preset"@[3] == 'p');
    assert("eq_bass"@[3] == 'b');
    assert("eq_mid"@[3] == 'm');
    assert("eq_treble"@[3] == 't');
    assert(signed_decimal(-1) =~= "-1"@) by {
        reveal_with_fuel(decimal, 2);
    }
}

} // verus!
