//! What holds of rows that are ordered by keys.

use vstd::prelude::*;

use crate::order::arranged;
use crate::order::is_permutation;
use crate::order::is_stable_order;
use crate::order::law_stable_order_exists;
use crate::order::law_stable_order_is_unique;
use crate::order::lemma_lex_total;
use crate::order::lex_less;
use crate::order::ordered_by;
use crate::order::ranks_before;
use crate::order::stable_order;

verus! {

/// No row is listed twice.
pub proof fn lemma_order_distinct(keys: Seq<Seq<i64>>, descending: bool, order: Seq<usize>)
    requires
        is_stable_order(keys, descending, order),
    ensures
        order.no_duplicates(),
{
    assert forall|i: int, j: int| 0 <= i < order.len() && 0 <= j < order.len() && i
        != j implies order[i] != order[j] by {
        if i < j {
            assert(ranks_before(keys, descending, order[i], order[j]));
            lemma_lex_total(keys[order[i] as int], keys[order[j] as int]);
        } else {
            assert(ranks_before(keys, descending, order[j], order[i]));
            lemma_lex_total(keys[order[i] as int], keys[order[j] as int]);
        }
    }
}

proof fn lemma_permuted<T>(rows: Seq<T>, order: Seq<usize>)
    requires
        rows.len() <= usize::MAX,
        is_permutation(order, rows.len()),
        order.no_duplicates(),
    ensures
        arranged(rows, order).to_multiset() == rows.to_multiset(),
    decreases rows.len(),
{
    if rows.len() == 0 {
        assert(arranged(rows, order) =~= rows);
    } else {
        let last = (rows.len() - 1) as usize;
        assert(order.contains(last));
        let p = choose|p: int| 0 <= p < order.len() && order[p] == last;
        let shorter = rows.drop_last();
        let rest = order.remove(p);
        assert forall|i: int| 0 <= i < rest.len() implies #[trigger] rest[i] < shorter.len() by {
            let k = if i < p { i } else { i + 1 };
            assert(rest[i] == order[k]);
            assert(order[k] != order[p]);
        }
        assert forall|v: usize| v < shorter.len() implies #[trigger] rest.contains(v) by {
            assert(order.contains(v));
            let k = choose|k: int| 0 <= k < order.len() && order[k] == v;
            assert(rest[if k < p { k } else { k - 1 }] == v);
        }
        assert forall|i: int, j: int| 0 <= i < rest.len() && 0 <= j < rest.len() && i
            != j implies rest[i] != rest[j] by {
            let a = if i < p { i } else { i + 1 };
            let b = if j < p { j } else { j + 1 };
            assert(rest[i] == order[a] && rest[j] == order[b]);
        }
        lemma_permuted(shorter, rest);
        vstd::seq_lib::to_multiset_insert(arranged(shorter, rest), p, rows.last());
        assert(arranged(rows, order) =~= arranged(shorter, rest).insert(p, rows.last()));
        vstd::seq_lib::to_multiset_build(shorter, rows.last());
        assert(shorter.push(rows.last()) =~= rows);
    }
}

/// Ordering rows loses none and adds none.
pub proof fn law_order_permutes<T>(rows: Seq<T>, keys: Seq<Seq<i64>>, descending: bool)
    requires
        rows.len() == keys.len(),
        rows.len() <= usize::MAX,
    ensures
        ordered_by(rows, keys, descending).len() == rows.len(),
        ordered_by(rows, keys, descending).to_multiset() == rows.to_multiset(),
{
    law_stable_order_exists(keys, descending);
    let order = stable_order(keys, descending);
    lemma_order_distinct(keys, descending, order);
    lemma_permuted(rows, order);
}

/// Each ordered row is one of the rows, and each of the rows is among the ordered ones.
pub proof fn lemma_order_contains<T>(rows: Seq<T>, keys: Seq<Seq<i64>>, descending: bool)
    requires
        rows.len() == keys.len(),
        rows.len() <= usize::MAX,
    ensures
        is_stable_order(keys, descending, stable_order(keys, descending)),
        stable_order(keys, descending).no_duplicates(),
        ordered_by(rows, keys, descending).len() == rows.len(),
        forall|k: int|
            0 <= k < rows.len() ==> rows.contains(#[trigger] ordered_by(rows, keys, descending)[k]),
        forall|i: int|
            0 <= i < rows.len() ==> ordered_by(rows, keys, descending).contains(#[trigger] rows[i]),
{
    law_stable_order_exists(keys, descending);
    let order = stable_order(keys, descending);
    let out = ordered_by(rows, keys, descending);
    lemma_order_distinct(keys, descending, order);
    assert forall|k: int| 0 <= k < rows.len() implies rows.contains(#[trigger] out[k]) by {
        assert(order[k] < rows.len());
        assert(out[k] == rows[order[k] as int]);
    }
    assert forall|i: int| 0 <= i < rows.len() implies out.contains(#[trigger] rows[i]) by {
        assert(order.contains(i as usize));
        let k = choose|k: int| 0 <= k < order.len() && order[k] == i as usize;
        assert(out[k] == rows[i]);
    }
}

/// Rows that stand in their order already stay as they are.
pub proof fn law_sorted_rows_stay<T>(rows: Seq<T>, keys: Seq<Seq<i64>>)
    requires
        rows.len() == keys.len(),
        rows.len() <= usize::MAX,
        forall|i: int, j: int|
            0 <= i < j < keys.len() ==> !lex_less(#[trigger] keys[j], #[trigger] keys[i]),
    ensures
        ordered_by(rows, keys, false) == rows,
{
    let order = Seq::new(keys.len(), |i: int| i as usize);
    assert forall|v: usize| v < keys.len() implies #[trigger] order.contains(v) by {
        assert(order[v as int] == v);
    }
    assert forall|i: int, j: int| 0 <= i < j < order.len() implies ranks_before(
        keys,
        false,
        #[trigger] order[i],
        #[trigger] order[j],
    ) by {
        lemma_lex_total(keys[i], keys[j]);
        assert(!lex_less(keys[j], keys[i]));
    }
    law_stable_order_exists(keys, false);
    law_stable_order_is_unique(keys, false, order, stable_order(keys, false));
    assert(ordered_by(rows, keys, false) =~= rows);
}

/// A row whose key is below no other comes at the end.
pub proof fn law_largest_comes_last<T>(rows: Seq<T>, keys: Seq<Seq<i64>>, row: T, key: Seq<i64>)
    requires
        rows.len() == keys.len(),
        rows.len() < usize::MAX,
        forall|i: int| 0 <= i < keys.len() ==> !lex_less(key, #[trigger] keys[i]),
    ensures
        ordered_by(rows.push(row), keys.push(key), false) == ordered_by(rows, keys, false).push(
            row,
        ),
{
    law_stable_order_exists(keys, false);
    let order = stable_order(keys, false);
    let all = keys.push(key);
    let n = keys.len() as usize;
    let next = order.push(n);
    assert forall|v: usize| v < all.len() implies #[trigger] next.contains(v) by {
        if v == n {
            assert(next[order.len() as int] == n);
        } else {
            assert(order.contains(v));
            let k = choose|k: int| 0 <= k < order.len() && order[k] == v;
            assert(next[k] == v);
        }
    }
    assert forall|i: int| 0 <= i < next.len() implies #[trigger] next[i] < all.len() by {
        if i < order.len() {
            assert(next[i] == order[i]);
        }
    }
    assert forall|i: int, j: int| 0 <= i < j < next.len() implies ranks_before(
        all,
        false,
        #[trigger] next[i],
        #[trigger] next[j],
    ) by {
        assert(next[i] == order[i]);
        assert(order[i] < n);
        assert(all[order[i] as int] == keys[order[i] as int]);
        if j < order.len() {
            assert(next[j] == order[j]);
            assert(order[j] < n);
            assert(all[order[j] as int] == keys[order[j] as int]);
            assert(ranks_before(keys, false, order[i], order[j]));
        } else {
            lemma_lex_total(keys[order[i] as int], key);
            assert(!lex_less(key, keys[order[i] as int]));
        }
    }
    law_stable_order_exists(all, false);
    law_stable_order_is_unique(all, false, next, stable_order(all, false));
    assert forall|i: int| 0 <= i < order.len() implies rows.push(row)[order[i] as int]
        == rows[#[trigger] order[i] as int] by {
        assert(order[i] < n);
    }
    assert(ordered_by(rows.push(row), all, false) =~= ordered_by(rows, keys, false).push(row));
}

/// A row whose key is above all others comes first in descending order.
pub proof fn law_largest_comes_first<T>(rows: Seq<T>, keys: Seq<Seq<i64>>, at: int)
    requires
        rows.len() == keys.len(),
        rows.len() <= usize::MAX,
        0 <= at < rows.len(),
        forall|i: int|
            0 <= i < keys.len() && i != at ==> lex_less(#[trigger] keys[i], keys[at]),
    ensures
        ordered_by(rows, keys, true)[0] == rows[at],
{
    law_stable_order_exists(keys, true);
    let order = stable_order(keys, true);
    assert(order.contains(at as usize));
    let p = choose|p: int| 0 <= p < order.len() && order[p] == at as usize;
    if p > 0 {
        let first = order[0];
        assert(ranks_before(keys, true, order[0], order[p]));
        lemma_order_distinct(keys, true, order);
        assert(order[0] != order[p]);
        assert(lex_less(keys[first as int], keys[at]));
        lemma_lex_total(keys[first as int], keys[at]);
    }
}

} // verus!
