//! Grouping rows by keys and counting the rows of a group.
//!
//! Rows with the same key form a group. The first row of a group stands for it.

use vstd::prelude::*;
use vstd::seq_lib::to_multiset_build;
use vstd::seq_lib::to_multiset_contains;

use crate::order::arranged;
use crate::order::is_stable_order;
use crate::order::key_views;
use crate::order::lemma_lex_total;
use crate::order::limited;
use crate::order::order_by;
use crate::order::ordered_by;
use crate::order::ranks_before;
use crate::order::stable_order;
use crate::order_laws::law_order_permutes;
use crate::order_laws::lemma_order_distinct;

verus! {

/// A text as a key: its characters as numbers.
pub open spec fn text_key(s: Seq<char>) -> Seq<i64> {
    s.map_values(|c: char| c as i64)
}

/// Two texts as one key: ordered by the first, then by the second.
pub open spec fn pair_key(a: Seq<char>, b: Seq<char>) -> Seq<i64> {
    text_key(a).push((-1) as i64) + text_key(b)
}

/// The number of rows whose key is `key`.
pub open spec fn count_of(keys: Seq<Seq<i64>>, key: Seq<i64>) -> nat
    decreases keys.len(),
{
    if keys.len() == 0 {
        0
    } else if keys.last() == key {
        count_of(keys.drop_last(), key) + 1
    } else {
        count_of(keys.drop_last(), key)
    }
}

/// The first row of each group, in the order of the rows.
pub open spec fn first_indices(keys: Seq<Seq<i64>>) -> Seq<usize>
    decreases keys.len(),
{
    if keys.len() == 0 {
        Seq::empty()
    } else {
        let earlier = first_indices(keys.drop_last());
        if keys.drop_last().contains(keys.last()) {
            earlier
        } else {
            earlier.push((keys.len() - 1) as usize)
        }
    }
}

/// The keys of the given rows.
pub open spec fn keys_at(keys: Seq<Seq<i64>>, rows: Seq<usize>) -> Seq<Seq<i64>> {
    rows.map_values(|i: usize| keys[i as int])
}

/// For each of the given rows, the size of its group as a key.
pub open spec fn count_keys(keys: Seq<Seq<i64>>, rows: Seq<usize>) -> Seq<Seq<i64>> {
    rows.map_values(|i: usize| seq![count_of(keys, keys[i as int]) as i64])
}

/// The first row of each group, by key.
pub open spec fn groups_by_key(keys: Seq<Seq<i64>>, descending: bool) -> Seq<usize> {
    let firsts = first_indices(keys);
    ordered_by(firsts, keys_at(keys, firsts), descending)
}

/// The first row of each group, the largest group first, groups of one size by key.
pub open spec fn groups_by_size(keys: Seq<Seq<i64>>, descending: bool) -> Seq<usize> {
    let groups = groups_by_key(keys, descending);
    ordered_by(groups, count_keys(keys, groups), true)
}

/// What the listed rows of `first_indices` are.
pub proof fn lemma_first_indices(keys: Seq<Seq<i64>>)
    requires
        keys.len() <= usize::MAX,
    ensures
        first_indices(keys).len() <= keys.len(),
        forall|k: int|
            0 <= k < first_indices(keys).len() ==> #[trigger] first_indices(keys)[k] < keys.len(),
        forall|k: int, j: int|
            0 <= k < first_indices(keys).len() && 0 <= j < first_indices(keys)[k] ==> #[trigger] keys[j]
                != keys[#[trigger] first_indices(keys)[k] as int],
        forall|k: int, m: int|
            0 <= k < m < first_indices(keys).len() ==> #[trigger] first_indices(keys)[k]
                < #[trigger] first_indices(keys)[m],
    decreases keys.len(),
{
    if keys.len() > 0 {
        let shorter = keys.drop_last();
        lemma_first_indices(shorter);
        assert forall|k: int, j: int|
            0 <= k < first_indices(keys).len() && 0 <= j < first_indices(keys)[k] implies #[trigger] keys[j]
            != keys[#[trigger] first_indices(keys)[k] as int] by {
            assert(keys[j] == shorter[j]);
            if k < first_indices(shorter).len() {
                assert(first_indices(keys)[k] == first_indices(shorter)[k]);
                assert(shorter[j] != shorter[first_indices(shorter)[k] as int]);
            }
        }
    }
}

proof fn lemma_char_number(c: char)
    ensures
        c as i64 == c as int,
{
}

/// One more key at the end.
pub proof fn lemma_key_views_push(keys: Seq<Vec<i64>>, key: Vec<i64>)
    ensures
        key_views(keys.push(key)) == key_views(keys).push(key@),
{
    assert(key_views(keys.push(key)) =~= key_views(keys).push(key@));
}

/// Two texts with the same key are the same text.
pub proof fn lemma_text_key_injective(a: Seq<char>, b: Seq<char>)
    requires
        text_key(a) == text_key(b),
    ensures
        a == b,
{
    assert(a.len() == text_key(a).len() && b.len() == text_key(b).len());
    assert forall|i: int| 0 <= i < a.len() implies a[i] == b[i] by {
        assert(text_key(a)[i] == a[i] as i64);
        assert(text_key(b)[i] == b[i] as i64);
        lemma_char_number(a[i]);
        lemma_char_number(b[i]);
    }
    assert(a =~= b);
}

/// Appends the characters of a text to a key.
pub fn push_text(key: &mut Vec<i64>, s: &str)
    ensures
        final(key)@ == old(key)@ + text_key(s@),
{
    let ghost start = key@;
    for c in it: s.chars()
        invariant
            key@ == start + text_key(s@.take(it.index())),
            it.seq() == s@,
    {
        let ghost k = it.index();
        proof {
            assert(text_key(s@.take(k + 1)) == text_key(s@.take(k)).push(s@[k] as i64));
        }
        key.push(c as i64);
        assert(key@ == start + text_key(s@.take(k + 1)));
    }
    assert(s@.take(s@.len() as int) == s@);
}

/// The key of a text.
pub fn key_of(s: &str) -> (key: Vec<i64>)
    ensures
        key@ == text_key(s@),
{
    let mut key: Vec<i64> = Vec::new();
    push_text(&mut key, s);
    assert(key@ == text_key(s@));
    key
}

/// The key of two texts.
pub fn pair_key_of(a: &str, b: &str) -> (key: Vec<i64>)
    ensures
        key@ == pair_key(a@, b@),
{
    let mut key: Vec<i64> = key_of(a);
    key.push(-1);
    push_text(&mut key, b);
    key
}

/// Tells whether two keys are the same.
pub fn same_key(a: &Vec<i64>, b: &Vec<i64>) -> (r: bool)
    ensures
        r == (a@ == b@),
{
    if a.len() != b.len() {
        return false;
    }
    let mut i: usize = 0;
    while i < a.len()
        invariant
            i <= a.len(),
            a.len() == b.len(),
            forall|j: int| 0 <= j < i ==> a@[j] == b@[j],
        decreases a.len() - i,
    {
        if a[i] != b[i] {
            return false;
        }
        i = i + 1;
    }
    assert(a@ =~= b@);
    true
}

/// A group is no larger than the rows are many, and a group that has a row is not empty.
pub proof fn lemma_count_bounds(keys: Seq<Seq<i64>>, key: Seq<i64>)
    ensures
        count_of(keys, key) <= keys.len(),
        keys.contains(key) <==> count_of(keys, key) > 0,
    decreases keys.len(),
{
    if keys.len() > 0 {
        lemma_count_bounds(keys.drop_last(), key);
        if keys.contains(key) {
            let i = choose|i: int| 0 <= i < keys.len() && keys[i] == key;
            if i < keys.len() - 1 {
                assert(keys.drop_last()[i] == key);
            }
        }
        if keys.drop_last().contains(key) {
            let i = choose|i: int| 0 <= i < keys.drop_last().len() && keys.drop_last()[i] == key;
            assert(keys[i] == key);
        }
        if keys.last() == key {
            assert(keys[keys.len() - 1] == key);
        }
    }
}

proof fn lemma_count_is_multiset(keys: Seq<Seq<i64>>, key: Seq<i64>)
    ensures
        count_of(keys, key) == keys.to_multiset().count(key),
    decreases keys.len(),
{
    if keys.len() == 0 {
        to_multiset_contains(keys, key);
    } else {
        let shorter = keys.drop_last();
        lemma_count_is_multiset(shorter, key);
        to_multiset_build(shorter, keys.last());
        assert(shorter.push(keys.last()) =~= keys);
    }
}

/// Where a key stands from `from` to `to` and nowhere else, it is counted so often.
proof fn lemma_count_run(keys: Seq<Seq<i64>>, key: Seq<i64>, from: int, to: int)
    requires
        0 <= from <= to <= keys.len(),
        forall|i: int| 0 <= i < keys.len() ==> (from <= i < to <==> #[trigger] keys[i] == key),
    ensures
        count_of(keys, key) == to - from,
    decreases keys.len(),
{
    if keys.len() > 0 {
        let shorter = keys.drop_last();
        let n = shorter.len() as int;
        let end = if to > n {
            n
        } else {
            to
        };
        let start = if from > n {
            n
        } else {
            from
        };
        assert(n < to && from <= n <==> keys[n] == key);
        assert forall|i: int| 0 <= i < shorter.len() implies (start <= i < end
            <==> #[trigger] shorter[i] == key) by {
            assert(shorter[i] == keys[i]);
        }
        lemma_count_run(shorter, key, start, end);
    }
}

/// Between two rows with one key, the order by key has only rows with that key.
proof fn lemma_between(kv: Seq<Seq<i64>>, order: Seq<usize>, i: int, j: int, m: int)
    requires
        is_stable_order(kv, false, order),
        0 <= i <= j <= m < order.len(),
        kv[order[i] as int] == kv[order[m] as int],
    ensures
        kv[order[j] as int] == kv[order[i] as int],
{
    if i < j && j < m {
        assert(ranks_before(kv, false, order[i], order[j]));
        assert(ranks_before(kv, false, order[j], order[m]));
        lemma_lex_total(kv[order[i] as int], kv[order[j] as int]);
    }
}

/// A run of one key in the order by key that ends on both sides is the whole group.
proof fn lemma_run_is_group(kv: Seq<Seq<i64>>, order: Seq<usize>, from: int, to: int)
    requires
        kv.len() <= usize::MAX,
        order == stable_order(kv, false),
        is_stable_order(kv, false, order),
        0 <= from < to <= order.len(),
        forall|p: int|
            from <= p < to ==> kv[#[trigger] order[p] as int] == kv[order[from] as int],
        from > 0 ==> kv[order[from - 1] as int] != kv[order[from] as int],
        to < order.len() ==> kv[order[to] as int] != kv[order[from] as int],
    ensures
        count_of(kv, kv[order[from] as int]) == to - from,
{
    let key = kv[order[from] as int];
    let sorted = arranged(kv, order);
    assert forall|p: int| 0 <= p < sorted.len() implies (from <= p < to <==> #[trigger] sorted[p]
        == key) by {
        assert(sorted[p] == kv[order[p] as int]);
        if p < from && sorted[p] == key {
            lemma_between(kv, order, p, from - 1, from);
        }
        if p >= to && sorted[p] == key {
            lemma_between(kv, order, from, to, p);
        }
    }
    lemma_count_run(sorted, key, from, to);
    law_order_permutes(kv, kv, false);
    lemma_count_is_multiset(sorted, key);
    lemma_count_is_multiset(kv, key);
}

/// Tells for each row how many rows have its key.
pub fn group_sizes(keys: &Vec<Vec<i64>>) -> (sizes: Vec<usize>)
    ensures
        sizes@.len() == keys@.len(),
        forall|i: int|
            0 <= i < sizes@.len() ==> #[trigger] sizes@[i] == count_of(
                key_views(keys@),
                key_views(keys@)[i],
            ),
        forall|i: int| 0 <= i < sizes@.len() ==> #[trigger] sizes@[i] <= keys@.len(),
{
    let ghost kv = key_views(keys@);
    let order: Vec<usize> = order_by(keys, false);
    let n: usize = keys.len();
    let mut sizes: Vec<usize> = Vec::new();
    while sizes.len() < n
        invariant
            sizes@.len() <= n,
        decreases n - sizes@.len(),
    {
        sizes.push(0);
    }
    proof {
        lemma_order_distinct(kv, false, order@);
    }
    // In the order by key the rows of a group stand together.
    let mut start: usize = 0;
    while start < n
        invariant
            start <= n,
            n == keys@.len(),
            n == order@.len(),
            sizes@.len() == n,
            kv == key_views(keys@),
            order@ == stable_order(kv, false),
            is_stable_order(kv, false, order@),
            order@.no_duplicates(),
            0 < start < n ==> kv[order@[start - 1] as int] != kv[order@[start as int] as int],
            forall|p: int|
                0 <= p < start ==> sizes@[(#[trigger] order@[p]) as int] == count_of(
                    kv,
                    kv[order@[p] as int],
                ),
        decreases n - start,
    {
        assert(order@[start as int] < n);
        let mut end: usize = start + 1;
        while end < n && same_key(&keys[order[end]], &keys[order[start]])
            invariant
                start < end <= n,
                n == keys@.len(),
                n == order@.len(),
                kv == key_views(keys@),
                is_stable_order(kv, false, order@),
                forall|p: int|
                    start <= p < end ==> kv[#[trigger] order@[p] as int]
                        == kv[order@[start as int] as int],
            ensures
                start < end <= n,
                forall|p: int|
                    start <= p < end ==> kv[#[trigger] order@[p] as int]
                        == kv[order@[start as int] as int],
                end < n ==> kv[order@[end as int] as int] != kv[order@[start as int] as int],
            decreases n - end,
        {
            assert(order@[end as int] < n);
            end = end + 1;
        }
        proof {
            lemma_run_is_group(kv, order@, start as int, end as int);
            if end < n {
                assert(kv[order@[end - 1] as int] == kv[order@[start as int] as int]);
            }
        }
        let size: usize = end - start;
        let mut p: usize = start;
        while p < end
            invariant
                start <= p <= end <= n,
                n == order@.len(),
                n == kv.len(),
                sizes@.len() == n,
                is_stable_order(kv, false, order@),
                order@.no_duplicates(),
                size == end - start,
                size == count_of(kv, kv[order@[start as int] as int]),
                forall|q: int|
                    start <= q < end ==> kv[#[trigger] order@[q] as int]
                        == kv[order@[start as int] as int],
                forall|q: int|
                    0 <= q < p ==> sizes@[(#[trigger] order@[q]) as int] == count_of(
                        kv,
                        kv[order@[q] as int],
                    ),
            decreases end - p,
        {
            assert(order@[p as int] < n);
            let ghost before = sizes@;
            sizes.set(order[p], size);
            assert forall|q: int| 0 <= q < p + 1 implies sizes@[(#[trigger] order@[q]) as int]
                == count_of(kv, kv[order@[q] as int]) by {
                assert(order@[q] < n);
                if q < p {
                    assert(order@[q] != order@[p as int]);
                    assert(sizes@[order@[q] as int] == before[order@[q] as int]);
                }
            }
            p = p + 1;
        }
        start = end;
    }
    assert forall|i: int| 0 <= i < sizes@.len() implies #[trigger] sizes@[i] == count_of(
        kv,
        kv[i],
    ) && sizes@[i] <= keys@.len() by {
        assert(order@.contains(i as usize));
        let p = choose|p: int| 0 <= p < order@.len() && order@[p] == i as usize;
        assert(sizes@[order@[p] as int] == count_of(kv, kv[order@[p] as int]));
        lemma_count_bounds(kv, kv[i]);
    }
    sizes
}

/// Finds the first row of each group.
pub fn first_rows(keys: &Vec<Vec<i64>>) -> (firsts: Vec<usize>)
    ensures
        firsts@ == first_indices(key_views(keys@)),
{
    let ghost kv = key_views(keys@);
    let order: Vec<usize> = order_by(keys, false);
    let n: usize = keys.len();
    // In the order by key the rows of a group stand together, its first row in front.
    let mut repeats: Vec<bool> = Vec::new();
    while repeats.len() < n
        invariant
            repeats@.len() <= n,
        decreases n - repeats@.len(),
    {
        repeats.push(false);
    }
    let mut j: usize = 0;
    while j < n
        invariant
            j <= n,
            n == keys@.len(),
            n == order@.len(),
            repeats@.len() == n,
            kv == key_views(keys@),
            is_stable_order(kv, false, order@),
            forall|p: int|
                0 <= p < j ==> repeats@[(#[trigger] order@[p]) as int] == (p > 0
                    && kv[order@[p - 1] as int] == kv[order@[p] as int]),
        decreases n - j,
    {
        let row: usize = order[j];
        assert(order@[j as int] < n);
        let repeated: bool = if j > 0 {
            assert(order@[j - 1] < n);
            same_key(&keys[order[j - 1]], &keys[row])
        } else {
            false
        };
        let ghost before = repeats@;
        repeats.set(row, repeated);
        proof {
            assert forall|p: int| 0 <= p < j + 1 implies repeats@[(#[trigger] order@[p]) as int] == (p
                > 0 && kv[order@[p - 1] as int] == kv[order@[p] as int]) by {
                if p < j {
                    assert(ranks_before(kv, false, order@[p], order@[j as int]));
                    lemma_lex_total(kv[row as int], kv[row as int]);
                    assert(order@[p] != row);
                    assert(before[order@[p] as int] == repeats@[order@[p] as int]);
                }
            }
        }
        j = j + 1;
    }
    let mut firsts: Vec<usize> = Vec::new();
    let mut i: usize = 0;
    while i < n
        invariant
            i <= n,
            n == keys@.len(),
            n == order@.len(),
            repeats@.len() == n,
            kv == key_views(keys@),
            is_stable_order(kv, false, order@),
            forall|p: int|
                0 <= p < n ==> repeats@[(#[trigger] order@[p]) as int] == (p > 0
                    && kv[order@[p - 1] as int] == kv[order@[p] as int]),
            firsts@ == first_indices(kv.take(i as int)),
        decreases n - i,
    {
        proof {
            assert(kv.take(i + 1).drop_last() == kv.take(i as int));
            lemma_repeats(kv, order@, repeats@, i);
        }
        if !repeats[i] {
            firsts.push(i);
        }
        i = i + 1;
    }
    assert(kv.take(n as int) == kv);
    firsts
}

/// In the order by key, a row repeats an earlier one exactly where its neighbour has its key.
proof fn lemma_repeats(kv: Seq<Seq<i64>>, order: Seq<usize>, repeats: Seq<bool>, i: usize)
    requires
        i < kv.len(),
        repeats.len() == kv.len(),
        is_stable_order(kv, false, order),
        forall|p: int|
            0 <= p < kv.len() ==> repeats[(#[trigger] order[p]) as int] == (p > 0 && kv[order[p - 1] as int]
                == kv[order[p] as int]),
    ensures
        repeats[i as int] == kv.take(i as int).contains(kv[i as int]),
{
    assert(order.contains(i));
    let j = choose|j: int| 0 <= j < order.len() && order[j] == i;
    let earlier = kv.take(i as int);
    if j > 0 && kv[order[j - 1] as int] == kv[i as int] {
        assert(ranks_before(kv, false, order[j - 1], order[j]));
        assert(earlier[order[j - 1] as int] == kv[i as int]);
    } else if earlier.contains(kv[i as int]) {
        let m = choose|m: int| 0 <= m < earlier.len() && earlier[m] == kv[i as int];
        assert(order.contains(m as usize));
        let p = choose|p: int| 0 <= p < order.len() && order[p] == m as usize;
        if p > j {
            assert(ranks_before(kv, false, order[j], order[p]));
        } else {
            assert(p < j);
            let q = order[j - 1];
            assert(ranks_before(kv, false, order[j - 1], order[j]));
            if p < j - 1 {
                assert(ranks_before(kv, false, order[p], order[j - 1]));
                lemma_lex_total(kv[q as int], kv[i as int]);
            }
        }
    }
}

/// Reads the rows in the given order.
pub fn pick(rows: &Vec<usize>, order: &Vec<usize>) -> (r: Vec<usize>)
    requires
        forall|k: int| 0 <= k < order@.len() ==> #[trigger] order@[k] < rows@.len(),
    ensures
        r@ == arranged(rows@, order@),
{
    let mut r: Vec<usize> = Vec::new();
    let mut i: usize = 0;
    while i < order.len()
        invariant
            i <= order.len(),
            forall|k: int| 0 <= k < order@.len() ==> #[trigger] order@[k] < rows@.len(),
            r@ == arranged(rows@, order@).take(i as int),
        decreases order.len() - i,
    {
        r.push(rows[order[i]]);
        i = i + 1;
        assert(r@ =~= arranged(rows@, order@).take(i as int));
    }
    assert(arranged(rows@, order@).take(i as int) == arranged(rows@, order@));
    r
}

/// Orders the groups by key; the first row of each stands for it.
pub fn group_rows(keys: &Vec<Vec<i64>>, descending: bool) -> (groups: Vec<usize>)
    ensures
        groups@ == groups_by_key(key_views(keys@), descending),
        forall|k: int| 0 <= k < groups@.len() ==> #[trigger] groups@[k] < keys@.len(),
{
    let ghost kv = key_views(keys@);
    let firsts: Vec<usize> = first_rows(keys);
    proof {
        assert(keys.len() == kv.len());
        lemma_first_indices(kv);
    }
    let mut first_keys: Vec<Vec<i64>> = Vec::new();
    let mut i: usize = 0;
    while i < firsts.len()
        invariant
            i <= firsts.len(),
            kv == key_views(keys@),
            forall|k: int| 0 <= k < firsts@.len() ==> #[trigger] firsts@[k] < keys@.len(),
            key_views(first_keys@) == keys_at(kv, firsts@).take(i as int),
        decreases firsts.len() - i,
    {
        assert(firsts@[i as int] < keys@.len());
        let row: usize = firsts[i];
        let key: Vec<i64> = keys[row].clone();
        assert(key@ =~= keys@[row as int]@);
        proof {
            lemma_key_views_push(first_keys@, key);
        }
        first_keys.push(key);
        i = i + 1;
        assert(key_views(first_keys@) =~= keys_at(kv, firsts@).take(i as int));
    }
    assert(keys_at(kv, firsts@).take(i as int) =~= keys_at(kv, firsts@));
    let order: Vec<usize> = order_by(&first_keys, descending);
    let groups: Vec<usize> = pick(&firsts, &order);
    assert forall|k: int| 0 <= k < groups@.len() implies #[trigger] groups@[k] < keys@.len() by {
        assert(groups@[k] == firsts@[order@[k] as int]);
        assert(order@[k] < firsts@.len());
    }
    groups
}

/// Orders the groups by size, the largest first, groups of one size by key, and keeps the first
/// `limit` of them; all of them where `limit` is negative. Gives the first row of each, and its
/// size.
pub fn largest_groups(keys: &Vec<Vec<i64>>, descending: bool, limit: i64) -> (r: Vec<(usize, i64)>)
    requires
        keys@.len() <= i64::MAX,
    ensures
        ({
            let kv = key_views(keys@);
            let groups = limited(groups_by_size(kv, descending), limit as int);
            &&& r@.len() == groups.len()
            &&& forall|k: int|
                0 <= k < r@.len() ==> {
                    &&& (#[trigger] r@[k]).0 == groups[k]
                    &&& r@[k].0 < keys@.len()
                    &&& r@[k].1 == count_of(kv, kv[r@[k].0 as int])
                }
        }),
{
    let ghost kv = key_views(keys@);
    let groups: Vec<usize> = group_rows(keys, descending);
    let sizes: Vec<usize> = group_sizes(keys);
    let mut counts: Vec<Vec<i64>> = Vec::new();
    let mut i: usize = 0;
    while i < groups.len()
        invariant
            i <= groups.len(),
            kv == key_views(keys@),
            keys@.len() <= i64::MAX,
            sizes@.len() == keys@.len(),
            forall|k: int|
                0 <= k < sizes@.len() ==> #[trigger] sizes@[k] == count_of(kv, kv[k]) && sizes@[k]
                    <= keys@.len(),
            forall|k: int| 0 <= k < groups@.len() ==> #[trigger] groups@[k] < keys@.len(),
            key_views(counts@) == count_keys(kv, groups@).take(i as int),
        decreases groups.len() - i,
    {
        assert(groups@[i as int] < keys@.len());
        let mut key: Vec<i64> = Vec::new();
        key.push(sizes[groups[i]] as i64);
        assert(key@ =~= seq![count_of(kv, kv[groups@[i as int] as int]) as i64]);
        proof {
            lemma_key_views_push(counts@, key);
        }
        counts.push(key);
        i = i + 1;
        assert(key_views(counts@) =~= count_keys(kv, groups@).take(i as int));
    }
    assert(count_keys(kv, groups@).take(i as int) =~= count_keys(kv, groups@));
    let order: Vec<usize> = order_by(&counts, true);
    let mut ranked: Vec<usize> = pick(&groups, &order);
    assert forall|k: int| 0 <= k < ranked@.len() implies #[trigger] ranked@[k] < keys@.len() by {
        assert(ranked@[k] == groups@[order@[k] as int]);
        assert(order@[k] < groups@.len());
    }
    keep_first(&mut ranked, limit);
    let mut r: Vec<(usize, i64)> = Vec::new();
    let mut j: usize = 0;
    while j < ranked.len()
        invariant
            j <= ranked.len(),
            kv == key_views(keys@),
            keys@.len() <= i64::MAX,
            sizes@.len() == keys@.len(),
            forall|k: int|
                0 <= k < sizes@.len() ==> #[trigger] sizes@[k] == count_of(kv, kv[k]) && sizes@[k]
                    <= keys@.len(),
            forall|k: int| 0 <= k < ranked@.len() ==> #[trigger] ranked@[k] < keys@.len(),
            r@.len() == j,
            forall|k: int|
                0 <= k < j ==> {
                    &&& (#[trigger] r@[k]).0 == ranked@[k]
                    &&& r@[k].0 < keys@.len()
                    &&& r@[k].1 == count_of(kv, kv[r@[k].0 as int])
                },
        decreases ranked.len() - j,
    {
        let row: usize = ranked[j];
        assert(ranked@[j as int] < keys@.len());
        assert(sizes@[row as int] == count_of(kv, kv[row as int]));
        r.push((row, sizes[row] as i64));
        j = j + 1;
    }
    r
}

/// Keeps the first `limit` rows; all of them where `limit` is negative.
pub fn keep_first(rows: &mut Vec<usize>, limit: i64)
    ensures
        final(rows)@ == limited(old(rows)@, limit as int),
{
    if 0 <= limit && (limit as u64) < rows.len() as u64 {
        rows.truncate(limit as usize);
    }
}

} // verus!
