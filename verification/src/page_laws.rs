//! What holds of what the pages show.

use vstd::prelude::*;

use crate::history::day_label;
use crate::history::plays_on;
use crate::history::StatData;
use crate::pages::charts;
use crate::pages::daily_stats;
use crate::pages::date_part;
use crate::pages::first_space;
use crate::pages::most_of;
use crate::pages::time_part;
use crate::pages::ScrobbleItem;
use crate::pages::StatItem;
use crate::tables::PlayData;
use crate::tables::Tables;

verus! {

proof fn lemma_most(stats: Seq<StatData>)
    ensures
        most_of(stats) >= 1,
        forall|m: int| 0 <= m < stats.len() ==> (#[trigger] stats[m]).count <= most_of(stats),
        most_of(stats) == 1 || exists|m: int|
            0 <= m < stats.len() && (#[trigger] stats[m]).count == most_of(stats),
    decreases stats.len(),
{
    if stats.len() > 0 {
        let shorter = stats.drop_last();
        lemma_most(shorter);
        assert forall|m: int| 0 <= m < stats.len() implies (#[trigger] stats[m]).count <= most_of(
            stats,
        ) by {
            if m < shorter.len() {
                assert(shorter[m] == stats[m]);
            }
        }
        if most_of(stats) != 1 {
            if stats.last().count > most_of(shorter) {
                assert(stats[stats.len() - 1].count == most_of(stats));
            } else {
                let m = choose|m: int|
                    0 <= m < shorter.len() && (#[trigger] shorter[m]).count == most_of(shorter);
                assert(stats[m].count == most_of(stats));
            }
        }
    }
}

/// A chart has a bar for each count, under its name and as long as the count. The scale is the same
/// for all bars: it is at least one and at least every count, and it is one or one of the counts.
/// So no bar is longer than the chart, and where a count is above one some bar fills it.
pub proof fn law_chart_has_its_scale(items: Seq<StatItem>, stats: Seq<StatData>, k: int)
    requires
        charts(items, stats),
        0 <= k < items.len(),
    ensures
        items.len() == stats.len(),
        items[k].name@ == stats[k].name,
        items[k].amount == stats[k].count,
        items[k].count == items[k].amount as i32,
        items[k].most >= 1,
        items[k].amount <= items[k].most,
        forall|m: int| 0 <= m < stats.len() ==> (#[trigger] stats[m]).count <= items[k].most,
        items[k].most == 1 || exists|m: int|
            0 <= m < stats.len() && (#[trigger] stats[m]).count == items[k].most,
        forall|m: int| 0 <= m < items.len() ==> (#[trigger] items[m]).most == items[k].most,
{
    lemma_most(stats);
    assert(items[k].amount == stats[k].count);
}

proof fn lemma_first_space(date: Seq<char>, rest: Seq<char>)
    requires
        forall|i: int| 0 <= i < date.len() ==> #[trigger] date[i] != ' ',
        rest.len() == 0 || rest[0] == ' ',
    ensures
        first_space(date + rest) == date.len(),
    decreases date.len(),
{
    let s = date + rest;
    if date.len() > 0 {
        let tail = date.drop_first();
        assert(s[0] == date[0]);
        assert forall|i: int| 0 <= i < tail.len() implies #[trigger] tail[i] != ' ' by {
            assert(tail[i] == date[i + 1]);
        }
        assert(s.drop_first() =~= tail + rest);
        lemma_first_space(tail, rest);
    } else if rest.len() > 0 {
        assert(s[0] == rest[0]);
    }
}

/// A time stamp is split at its first space: the date is all that stands before it, and the time
/// is what stands behind it, cut to five characters. A stamp without a space is all date.
pub proof fn law_stamp_is_split(date: Seq<char>, rest: Seq<char>)
    requires
        forall|i: int| 0 <= i < date.len() ==> #[trigger] date[i] != ' ',
    ensures
        date_part(date) == date,
        time_part(date).len() == 0,
        date_part(date + seq![' '] + rest) == date,
        rest.len() <= 5 ==> time_part(date + seq![' '] + rest) == rest,
        rest.len() > 5 ==> time_part(date + seq![' '] + rest) == rest.take(5),
{
    let none = Seq::<char>::empty();
    let stamp = date + seq![' '] + rest;
    lemma_first_space(date, none);
    assert(date + none =~= date);
    assert(date.take(date.len() as int) =~= date);
    lemma_first_space(date, seq![' '] + rest);
    assert(date + (seq![' '] + rest) =~= stamp);
    assert(stamp.take(date.len() as int) =~= date);
    let at = date.len() as int;
    assert(stamp.skip(at + 1) =~= rest);
    if rest.len() > 5 {
        assert(stamp.subrange(at + 1, at + 6) =~= rest.take(5));
    }
}

/// A row of the history page shows the title, the artist and the album of its play, and the two
/// parts of its time stamp.
pub proof fn law_play_row_shows(item: ScrobbleItem, p: PlayData)
    requires
        item.shows(p),
    ensures
        item.title@ == p.title,
        item.artist@ == p.artist,
        item.album@ == p.album,
        item.date@ == date_part(p.date),
        item.time@ == time_part(p.date),
{
}

/// The chart of the days has, in their order, the plays of each day under a label of the day, a
/// stroke and the month.
pub proof fn law_days_are_charted(t: Tables, days: Seq<Seq<char>>, k: int)
    requires
        0 <= k < days.len(),
        days[k].len() == 10,
    ensures
        daily_stats(t, days).len() == days.len(),
        daily_stats(t, days)[k].count == plays_on(t.history, days[k]),
        daily_stats(t, days)[k].name == day_label(days[k]),
        day_label(days[k]) == seq![days[k][8], days[k][9], '/', days[k][5], days[k][6]],
{
    assert(day_label(days[k]) =~= seq![days[k][8], days[k][9], '/', days[k][5], days[k][6]]);
}

} // verus!
