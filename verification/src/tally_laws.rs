//! What holds of groups of rows and of their sizes.

use vstd::prelude::*;

use crate::order::lex_less;
use crate::order::ordered_by;
use crate::order::ranks_before;
use crate::order::stable_order;
use crate::order_laws::lemma_order_contains;
use crate::tally::count_keys;
use crate::tally::count_of;
use crate::tally::first_indices;
use crate::tally::groups_by_key;
use crate::tally::groups_by_size;
use crate::tally::keys_at;
use crate::tally::lemma_count_bounds;
use crate::tally::lemma_first_indices;

verus! {

/// The listed rows have different keys, and every key is that of a listed row.
pub open spec fn one_of_each(keys: Seq<Seq<i64>>, rows: Seq<usize>) -> bool {
    &&& forall|i: int| 0 <= i < rows.len() ==> #[trigger] rows[i] < keys.len()
    &&& forall|i: int, j: int|
        0 <= i < rows.len() && 0 <= j < rows.len() && i != j ==> keys[#[trigger] rows[i] as int]
            != keys[#[trigger] rows[j] as int]
    &&& forall|r: int|
        0 <= r < keys.len() ==> keys_at(keys, rows).contains(#[trigger] keys[r])
}

proof fn lemma_firsts_complete(keys: Seq<Seq<i64>>)
    requires
        keys.len() <= usize::MAX,
    ensures
        forall|r: int|
            0 <= r < keys.len() ==> keys_at(keys, first_indices(keys)).contains(
                #[trigger] keys[r],
            ),
    decreases keys.len(),
{
    if keys.len() > 0 {
        let shorter = keys.drop_last();
        lemma_firsts_complete(shorter);
        lemma_first_indices(shorter);
        let earlier = first_indices(shorter);
        let firsts = first_indices(keys);
        assert forall|r: int| 0 <= r < keys.len() implies keys_at(keys, firsts).contains(
            #[trigger] keys[r],
        ) by {
            if r < shorter.len() || shorter.contains(keys.last()) {
                let q = if r < shorter.len() {
                    r
                } else {
                    choose|q: int| 0 <= q < shorter.len() && shorter[q] == keys.last()
                };
                assert(keys_at(shorter, earlier).contains(shorter[q]));
                let k = choose|k: int|
                    0 <= k < earlier.len() && keys_at(shorter, earlier)[k] == shorter[q];
                assert(firsts[k] == earlier[k]);
                assert(earlier[k] < shorter.len());
                assert(keys_at(keys, firsts)[k] == keys[r]);
            } else {
                assert(keys_at(keys, firsts)[earlier.len() as int] == keys[r]);
            }
        }
    }
}

/// The first rows are one of each group.
pub proof fn law_first_rows(keys: Seq<Seq<i64>>)
    requires
        keys.len() <= usize::MAX,
    ensures
        one_of_each(keys, first_indices(keys)),
{
    lemma_first_indices(keys);
    lemma_firsts_complete(keys);
    let firsts = first_indices(keys);
    assert forall|i: int, j: int|
        0 <= i < firsts.len() && 0 <= j < firsts.len() && i
            != j implies keys[#[trigger] firsts[i] as int] != keys[#[trigger] firsts[j] as int] by {
        if i < j {
            assert(firsts[i] < firsts[j]);
        } else {
            assert(firsts[j] < firsts[i]);
        }
    }
}

/// Rows that are one of each stay so in another order.
pub proof fn lemma_reordered(
    keys: Seq<Seq<i64>>,
    rows: Seq<usize>,
    by: Seq<Seq<i64>>,
    descending: bool,
)
    requires
        one_of_each(keys, rows),
        by.len() == rows.len(),
        rows.len() <= usize::MAX,
    ensures
        one_of_each(keys, ordered_by(rows, by, descending)),
        ordered_by(rows, by, descending).len() == rows.len(),
{
    lemma_order_contains(rows, by, descending);
    let order = stable_order(by, descending);
    let out = ordered_by(rows, by, descending);
    assert forall|i: int| 0 <= i < out.len() implies #[trigger] out[i] < keys.len() by {
        assert(order[i] < rows.len());
        assert(out[i] == rows[order[i] as int]);
    }
    assert forall|i: int, j: int| 0 <= i < out.len() && 0 <= j < out.len() && i
        != j implies keys[#[trigger] out[i] as int] != keys[#[trigger] out[j] as int] by {
        assert(order[i] != order[j]);
        assert(order[i] < rows.len() && order[j] < rows.len());
        assert(out[i] == rows[order[i] as int] && out[j] == rows[order[j] as int]);
    }
    assert forall|r: int| 0 <= r < keys.len() implies keys_at(keys, out).contains(
        #[trigger] keys[r],
    ) by {
        assert(keys_at(keys, rows).contains(keys[r]));
        let k = choose|k: int| 0 <= k < rows.len() && keys_at(keys, rows)[k] == keys[r];
        assert(out.contains(rows[k]));
        let p = choose|p: int| 0 <= p < out.len() && out[p] == rows[k];
        assert(keys_at(keys, out)[p] == keys[r]);
    }
}

/// The groups by key are one of each.
pub proof fn law_groups_by_key(keys: Seq<Seq<i64>>, descending: bool)
    requires
        keys.len() <= usize::MAX,
    ensures
        one_of_each(keys, groups_by_key(keys, descending)),
        groups_by_key(keys, descending).len() == first_indices(keys).len(),
{
    law_first_rows(keys);
    lemma_first_indices(keys);
    let firsts = first_indices(keys);
    lemma_reordered(keys, firsts, keys_at(keys, firsts), descending);
}

/// The groups by size are one of each, no group is empty, and a larger group never comes after a
/// smaller one.
pub proof fn law_groups_by_size(keys: Seq<Seq<i64>>, descending: bool)
    requires
        keys.len() <= usize::MAX,
        keys.len() <= i64::MAX,
    ensures
        one_of_each(keys, groups_by_size(keys, descending)),
        groups_by_size(keys, descending).len() == first_indices(keys).len(),
        forall|i: int|
            0 <= i < groups_by_size(keys, descending).len() ==> 0 < count_of(
                keys,
                keys[#[trigger] groups_by_size(keys, descending)[i] as int],
            ) <= keys.len(),
        forall|i: int, j: int|
            0 <= i < j < groups_by_size(keys, descending).len() ==> count_of(
                keys,
                keys[#[trigger] groups_by_size(keys, descending)[i] as int],
            ) >= count_of(keys, keys[#[trigger] groups_by_size(keys, descending)[j] as int]),
{
    law_groups_by_key(keys, descending);
    lemma_first_indices(keys);
    let groups = groups_by_key(keys, descending);
    let by = count_keys(keys, groups);
    lemma_reordered(keys, groups, by, true);
    lemma_order_contains(groups, by, true);
    let order = stable_order(by, true);
    let out = groups_by_size(keys, descending);
    assert forall|i: int| 0 <= i < out.len() implies 0 < count_of(
        keys,
        keys[#[trigger] out[i] as int],
    ) <= keys.len() by {
        assert(out[i] < keys.len());
        lemma_count_bounds(keys, keys[out[i] as int]);
        assert(keys.contains(keys[out[i] as int]));
    }
    assert forall|i: int, j: int| 0 <= i < j < out.len() implies count_of(
        keys,
        keys[#[trigger] out[i] as int],
    ) >= count_of(keys, keys[#[trigger] out[j] as int]) by {
        assert(ranks_before(by, true, order[i], order[j]));
        assert(order[i] < groups.len() && order[j] < groups.len());
        assert(out[i] == groups[order[i] as int] && out[j] == groups[order[j] as int]);
        let a = count_of(keys, keys[out[i] as int]);
        let b = count_of(keys, keys[out[j] as int]);
        lemma_count_bounds(keys, keys[out[i] as int]);
        lemma_count_bounds(keys, keys[out[j] as int]);
        assert(by[order[i] as int] == seq![a as i64]);
        assert(by[order[j] as int] == seq![b as i64]);
        lemma_single(a as i64, b as i64);
        lemma_single(b as i64, a as i64);
    }
}

/// Keys of one number are ordered by that number.
pub proof fn lemma_single(a: i64, b: i64)
    ensures
        lex_less(seq![a], seq![b]) <==> a < b,
        seq![a] == seq![b] <==> a == b,
{
    reveal_with_fuel(lex_less, 2);
    assert(seq![a][0] == a && seq![b][0] == b);
}

/// The size of a group is the number of rows that the filter of its key keeps.
pub proof fn law_count_is_filter<T>(
    rows: Seq<T>,
    keys: Seq<Seq<i64>>,
    key: Seq<i64>,
    keep: spec_fn(T) -> bool,
)
    requires
        rows.len() == keys.len(),
        forall|i: int| 0 <= i < rows.len() ==> (keep(#[trigger] rows[i]) <==> keys[i] == key),
    ensures
        count_of(keys, key) == rows.filter(keep).len(),
    decreases rows.len(),
{
    reveal(Seq::filter);
    if rows.len() > 0 {
        let shorter = rows.drop_last();
        assert forall|i: int| 0 <= i < shorter.len() implies (keep(#[trigger] shorter[i])
            <==> keys.drop_last()[i] == key) by {
            assert(shorter[i] == rows[i]);
        }
        law_count_is_filter(shorter, keys.drop_last(), key, keep);
        assert(keep(rows[rows.len() - 1]) <==> keys[rows.len() - 1] == key);
    }
}

/// The sum of numbers.
pub open spec fn sum_of(numbers: Seq<int>) -> int
    decreases numbers.len(),
{
    if numbers.len() == 0 {
        0
    } else {
        sum_of(numbers.drop_last()) + numbers.last()
    }
}

/// How many rows have each of the listed keys.
pub open spec fn counts_of(keys: Seq<Seq<i64>>, listed: Seq<Seq<i64>>) -> Seq<int> {
    listed.map_values(|key: Seq<i64>| count_of(keys, key) as int)
}

/// Of one row more, one of different keys is counted once more, where the row has it.
proof fn lemma_one_row_more(keys: Seq<Seq<i64>>, listed: Seq<Seq<i64>>)
    requires
        keys.len() > 0,
        listed.no_duplicates(),
    ensures
        sum_of(counts_of(keys, listed)) == sum_of(counts_of(keys.drop_last(), listed)) + (
        if listed.contains(keys.last()) {
            1int
        } else {
            0int
        }),
    decreases listed.len(),
{
    let shorter = keys.drop_last();
    if listed.len() > 0 {
        let rest = listed.drop_last();
        let key = listed.last();
        assert(rest.no_duplicates()) by {
            assert forall|i: int, j: int|
                0 <= i < rest.len() && 0 <= j < rest.len() && i != j implies rest[i]
                != rest[j] by {
                assert(rest[i] == listed[i] && rest[j] == listed[j]);
            }
        }
        lemma_one_row_more(keys, rest);
        assert(counts_of(keys, listed).drop_last() =~= counts_of(keys, rest));
        assert(counts_of(shorter, listed).drop_last() =~= counts_of(shorter, rest));
        assert(listed[listed.len() - 1] == key);
        if rest.contains(keys.last()) {
            let k = choose|k: int| 0 <= k < rest.len() && rest[k] == keys.last();
            assert(listed[k] == keys.last());
        } else if listed.contains(keys.last()) {
            let k = choose|k: int| 0 <= k < listed.len() && listed[k] == keys.last();
            if k < rest.len() {
                assert(rest[k] == keys.last());
            }
        }
    }
}

/// Without rows, every key is counted zero times.
proof fn lemma_no_rows(keys: Seq<Seq<i64>>, listed: Seq<Seq<i64>>)
    requires
        keys.len() == 0,
    ensures
        sum_of(counts_of(keys, listed)) == 0,
    decreases listed.len(),
{
    if listed.len() > 0 {
        lemma_no_rows(keys, listed.drop_last());
        assert(counts_of(keys, listed).drop_last() =~= counts_of(keys, listed.drop_last()));
    }
}

/// Over different keys that take in every row, the counts add up to the number of rows.
pub proof fn law_sizes_add_up(keys: Seq<Seq<i64>>, listed: Seq<Seq<i64>>)
    requires
        listed.no_duplicates(),
        forall|r: int| 0 <= r < keys.len() ==> listed.contains(#[trigger] keys[r]),
    ensures
        sum_of(counts_of(keys, listed)) == keys.len(),
    decreases keys.len(),
{
    if keys.len() > 0 {
        let shorter = keys.drop_last();
        assert forall|r: int| 0 <= r < shorter.len() implies listed.contains(
            #[trigger] shorter[r],
        ) by {
            assert(shorter[r] == keys[r]);
        }
        law_sizes_add_up(shorter, listed);
        lemma_one_row_more(keys, listed);
        assert(listed.contains(keys[keys.len() - 1]));
    } else {
        lemma_no_rows(keys, listed);
    }
}

} // verus!
