//! Relations between lists, in which the laws of the other modules are stated.

use vstd::prelude::*;

use crate::order::lemma_lex_total;
use crate::order::lex_less;
use crate::order::limited;
use crate::order::ordered_by;
use crate::order::ranks_before;
use crate::order::stable_order;
use crate::order_laws::lemma_order_contains;
use crate::tally::lemma_text_key_injective;
use crate::tally::text_key;

verus! {

/// The first `k` items of two lists agree.
pub open spec fn agree<T>(a: Seq<T>, b: Seq<T>, k: int) -> bool {
    &&& 0 <= k <= a.len()
    &&& k <= b.len()
    &&& forall|j: int| 0 <= j < k ==> #[trigger] a[j] == b[j]
}

/// `a` stands before `b` in a dictionary: where the two first differ it has the smaller character,
/// or it ends there and `b` goes on.
pub open spec fn precedes(a: Seq<char>, b: Seq<char>) -> bool {
    exists|k: int| #[trigger] agree(a, b, k) && k < b.len() && (k == a.len() || a[k] < b[k])
}

/// A piece of `text` is `part`: it stands there from one position to another.
pub open spec fn stands_in(part: Seq<char>, text: Seq<char>) -> bool {
    exists|from: int, to: int|
        0 <= from <= to <= text.len() && #[trigger] text.subrange(from, to) == part
}

/// `out` are those of `rows` that `keep` holds of, at these places.
pub open spec fn picks<T>(
    rows: Seq<T>,
    out: Seq<T>,
    keep: spec_fn(T) -> bool,
    places: Seq<int>,
) -> bool {
    &&& places.len() == out.len()
    &&& forall|k: int|
        0 <= k < out.len() ==> {
            &&& 0 <= #[trigger] places[k] < rows.len()
            &&& out[k] == rows[places[k]]
            &&& keep(rows[places[k]])
        }
    &&& forall|i: int, j: int|
        0 <= i < j < places.len() ==> #[trigger] places[i] < #[trigger] places[j]
    &&& forall|i: int| 0 <= i < rows.len() && keep(#[trigger] rows[i]) ==> places.contains(i)
}

/// `out` are those of `rows` that `keep` holds of, all of them, in their order.
pub open spec fn lists_those<T>(rows: Seq<T>, out: Seq<T>, keep: spec_fn(T) -> bool) -> bool {
    exists|places: Seq<int>| picks(rows, out, keep, places)
}

/// `keep` holds of `n` of the rows.
pub open spec fn counts_those<T>(rows: Seq<T>, keep: spec_fn(T) -> bool, n: int) -> bool {
    exists|out: Seq<T>| #[trigger] lists_those(rows, out, keep) && out.len() == n
}

/// `out` are the rows, none lost and none added: the row at `k` comes from `places[k]`.
pub open spec fn arranges<T>(rows: Seq<T>, out: Seq<T>, places: Seq<int>) -> bool {
    &&& out.len() == rows.len()
    &&& places.len() == rows.len()
    &&& forall|k: int|
        0 <= k < out.len() ==> 0 <= #[trigger] places[k] < rows.len() && out[k] == rows[places[k]]
    &&& forall|i: int, j: int|
        0 <= i < places.len() && 0 <= j < places.len() && i != j ==> #[trigger] places[i]
            != #[trigger] places[j]
}

/// `out` are the rows, sorted: each pair is in order, or in neither and then as it was.
pub open spec fn sorted_stably<T>(
    rows: Seq<T>,
    out: Seq<T>,
    before: spec_fn(T, T) -> bool,
) -> bool {
    exists|places: Seq<int>|
        {
            &&& #[trigger] arranges(rows, out, places)
            &&& forall|i: int, j: int|
                0 <= i < j < out.len() ==> {
                    ||| before(#[trigger] out[i], #[trigger] out[j])
                    ||| !before(out[j], out[i]) && places[i] < places[j]
                }
        }
}

/// `part` is `full` up to a limit; all of it where the limit is negative.
pub open spec fn cut<T>(full: Seq<T>, part: Seq<T>, limit: int) -> bool {
    &&& limit < 0 || limit >= full.len() ==> part.len() == full.len()
    &&& 0 <= limit < full.len() ==> part.len() == limit
    &&& forall|k: int| 0 <= k < part.len() ==> #[trigger] part[k] == full[k]
}

/// Where the dictionary order of two number sequences is decided.
proof fn lemma_lex_place(a: Seq<i64>, b: Seq<i64>) -> (k: int)
    requires
        lex_less(a, b),
    ensures
        agree(a, b, k),
        k < b.len(),
        k == a.len() || a[k] < b[k],
    decreases a.len(),
{
    if a.len() == 0 || a[0] != b[0] {
        0
    } else {
        let k = lemma_lex_place(a.drop_first(), b.drop_first());
        assert forall|j: int| 0 <= j < k + 1 implies #[trigger] a[j] == b[j] by {
            if j > 0 {
                assert(a.drop_first()[j - 1] == b.drop_first()[j - 1]);
            }
        }
        k + 1
    }
}

proof fn lemma_lex_from(a: Seq<i64>, b: Seq<i64>, k: int)
    requires
        agree(a, b, k),
        k < b.len(),
        k == a.len() || a[k] < b[k],
    ensures
        lex_less(a, b),
    decreases a.len(),
{
    if a.len() > 0 && k > 0 {
        let x = a.drop_first();
        let y = b.drop_first();
        assert(a[0] == b[0]);
        assert forall|j: int| 0 <= j < k - 1 implies #[trigger] x[j] == y[j] by {
            assert(a[j + 1] == b[j + 1]);
        }
        lemma_lex_from(x, y, k - 1);
    }
}

/// Keys are compared at the first place where they differ; one that ends there comes first.
pub proof fn law_keys_compare(a: Seq<i64>, b: Seq<i64>)
    ensures
        lex_less(a, b) <==> exists|k: int| #[trigger]
            agree(a, b, k) && k < b.len() && (k == a.len() || a[k] < b[k]),
{
    if lex_less(a, b) {
        let k = lemma_lex_place(a, b);
        assert(agree(a, b, k));
    }
    if exists|k: int| #[trigger]
        agree(a, b, k) && k < b.len() && (k == a.len() || a[k] < b[k]) {
        let k = choose|k: int| #[trigger]
            agree(a, b, k) && k < b.len() && (k == a.len() || a[k] < b[k]);
        lemma_lex_from(a, b, k);
    }
}

proof fn lemma_number(c: char)
    ensures
        c as i64 == c as int,
        c as i64 >= 0,
{
}

/// The keys of texts stand as the texts stand in a dictionary, and two texts with one key are one.
pub proof fn law_texts_compare(a: Seq<char>, b: Seq<char>)
    ensures
        lex_less(text_key(a), text_key(b)) <==> precedes(a, b),
        text_key(a) == text_key(b) <==> a == b,
{
    let x = text_key(a);
    let y = text_key(b);
    law_keys_compare(x, y);
    assert forall|k: int| #[trigger] agree(x, y, k) <==> #[trigger] agree(a, b, k) by {
        if agree(x, y, k) {
            assert forall|j: int| 0 <= j < k implies #[trigger] a[j] == b[j] by {
                assert(x[j] == y[j]);
                lemma_number(a[j]);
                lemma_number(b[j]);
            }
        }
        if agree(a, b, k) {
            assert forall|j: int| 0 <= j < k implies #[trigger] x[j] == y[j] by {
                assert(a[j] == b[j]);
            }
        }
    }
    assert forall|k: int| 0 <= k < a.len() && k < b.len() implies (#[trigger] x[k] < y[k] <==> a[k]
        < b[k]) by {
        lemma_number(a[k]);
        lemma_number(b[k]);
    }
    if lex_less(x, y) {
        let k = choose|k: int| #[trigger]
            agree(x, y, k) && k < y.len() && (k == x.len() || x[k] < y[k]);
        assert(agree(a, b, k));
    }
    if precedes(a, b) {
        let k = choose|k: int| #[trigger]
            agree(a, b, k) && k < b.len() && (k == a.len() || a[k] < b[k]);
        assert(agree(x, y, k));
    }
    if x == y {
        lemma_text_key_injective(a, b);
    }
}

/// Of two different texts one precedes the other, and not the other way round.
pub proof fn law_texts_are_ordered(a: Seq<char>, b: Seq<char>)
    ensures
        !precedes(a, a),
        !(precedes(a, b) && precedes(b, a)),
        a != b ==> precedes(a, b) || precedes(b, a),
{
    lemma_lex_total(text_key(a), text_key(b));
    law_texts_compare(a, b);
    law_texts_compare(b, a);
    law_texts_compare(a, a);
}

/// Where the rows of a filtered list stand in the list.
pub proof fn lemma_filter_picks<T>(rows: Seq<T>, keep: spec_fn(T) -> bool) -> (places: Seq<int>)
    ensures
        picks(rows, rows.filter(keep), keep, places),
    decreases rows.len(),
{
    reveal(Seq::filter);
    if rows.len() == 0 {
        Seq::empty()
    } else {
        let shorter = rows.drop_last();
        let n = shorter.len() as int;
        let earlier = lemma_filter_picks(shorter, keep);
        let places = if keep(rows.last()) {
            earlier.push(n)
        } else {
            earlier
        };
        let out = rows.filter(keep);
        assert forall|k: int| 0 <= k < out.len() implies {
            &&& 0 <= #[trigger] places[k] < rows.len()
            &&& out[k] == rows[places[k]]
            &&& keep(rows[places[k]])
        } by {
            if k < earlier.len() {
                assert(places[k] == earlier[k]);
                assert(shorter[earlier[k]] == rows[places[k]]);
            }
        }
        assert forall|i: int, j: int| 0 <= i < j < places.len() implies #[trigger] places[i]
            < #[trigger] places[j] by {
            assert(places[i] == earlier[i]);
            if j < earlier.len() {
                assert(places[j] == earlier[j]);
            }
        }
        assert forall|i: int| 0 <= i < rows.len() && keep(
            #[trigger] rows[i],
        ) implies places.contains(i) by {
            if i < n {
                assert(keep(shorter[i]));
                assert(earlier.contains(i));
                let k = choose|k: int| 0 <= k < earlier.len() && earlier[k] == i;
                assert(places[k] == i);
            } else {
                assert(places[earlier.len() as int] == i);
            }
        }
        places
    }
}

/// A filtered list is those of the list that pass the filter, in their order.
pub proof fn lemma_filter_lists<T>(
    rows: Seq<T>,
    filter: spec_fn(T) -> bool,
    keep: spec_fn(T) -> bool,
)
    requires
        forall|i: int|
            0 <= i < rows.len() ==> filter(#[trigger] rows[i]) == keep(rows[i]),
    ensures
        lists_those(rows, rows.filter(filter), keep),
{
    let places = lemma_filter_picks(rows, filter);
    assert(picks(rows, rows.filter(filter), keep, places)) by {
        assert forall|i: int| 0 <= i < rows.len() && keep(
            #[trigger] rows[i],
        ) implies places.contains(i) by {
            assert(filter(rows[i]));
        }
    }
}

/// Rows that are ordered by keys are sorted as the keys compare.
pub proof fn lemma_ordered_is_sorted<T>(
    rows: Seq<T>,
    keys: Seq<Seq<i64>>,
    descending: bool,
    before: spec_fn(T, T) -> bool,
)
    requires
        rows.len() == keys.len(),
        rows.len() <= usize::MAX,
        forall|i: int, j: int|
            0 <= i < rows.len() && 0 <= j < rows.len() ==> #[trigger] before(rows[i], rows[j]) == (
            if descending {
                lex_less(keys[j], keys[i])
            } else {
                lex_less(keys[i], keys[j])
            }),
    ensures
        sorted_stably(rows, ordered_by(rows, keys, descending), before),
{
    lemma_order_contains(rows, keys, descending);
    let order = stable_order(keys, descending);
    let out = ordered_by(rows, keys, descending);
    let places = order.map_values(|i: usize| i as int);
    assert forall|k: int| 0 <= k < out.len() implies 0 <= #[trigger] places[k] < rows.len()
        && out[k] == rows[places[k]] by {
        assert(order[k] < rows.len());
    }
    assert(arranges(rows, out, places));
    assert forall|i: int, j: int| 0 <= i < j < out.len() implies {
        ||| before(#[trigger] out[i], #[trigger] out[j])
        ||| !before(out[j], out[i]) && places[i] < places[j]
    } by {
        let a = order[i];
        let b = order[j];
        assert(a < rows.len() && b < rows.len());
        assert(ranks_before(keys, descending, order[i], order[j]));
        assert(out[i] == rows[a as int] && out[j] == rows[b as int]);
        assert(before(rows[a as int], rows[b as int]) == (if descending {
            lex_less(keys[b as int], keys[a as int])
        } else {
            lex_less(keys[a as int], keys[b as int])
        }));
        assert(before(rows[b as int], rows[a as int]) == (if descending {
            lex_less(keys[a as int], keys[b as int])
        } else {
            lex_less(keys[b as int], keys[a as int])
        }));
        lemma_lex_total(keys[a as int], keys[b as int]);
    }
}

/// The first rows of a list up to a limit.
pub proof fn law_limit_cuts<T>(rows: Seq<T>, limit: int)
    ensures
        cut(rows, limited(rows, limit), limit),
{
}

} // verus!
