//! Ordering rows by keys: stable, ascending or descending, with an optional limit.

use vstd::prelude::*;

verus! {

/// `a` comes before `b` in the dictionary order of number sequences.
pub open spec fn lex_less(a: Seq<i64>, b: Seq<i64>) -> bool
    decreases a.len(),
{
    if b.len() == 0 {
        false
    } else if a.len() == 0 {
        true
    } else if a[0] != b[0] {
        a[0] < b[0]
    } else {
        lex_less(a.drop_first(), b.drop_first())
    }
}

/// The row `a` comes before the row `b`: by their keys, and by their place where the keys are
/// equal.
pub open spec fn ranks_before(
    keys: Seq<Seq<i64>>,
    descending: bool,
    a: usize,
    b: usize,
) -> bool {
    let x = keys[a as int];
    let y = keys[b as int];
    if x == y {
        a < b
    } else if descending {
        lex_less(y, x)
    } else {
        lex_less(x, y)
    }
}

/// `order` lists every index below `n`, each once.
pub open spec fn is_permutation(order: Seq<usize>, n: nat) -> bool {
    &&& order.len() == n
    &&& forall|i: int| 0 <= i < order.len() ==> #[trigger] order[i] < n
    &&& forall|v: usize| v < n ==> #[trigger] order.contains(v)
}

/// `order` lists the rows by their keys, rows with equal keys in their given order.
pub open spec fn is_stable_order(
    keys: Seq<Seq<i64>>,
    descending: bool,
    order: Seq<usize>,
) -> bool {
    &&& is_permutation(order, keys.len())
    &&& forall|i: int, j: int|
        0 <= i < j < order.len() ==> ranks_before(
            keys,
            descending,
            #[trigger] order[i],
            #[trigger] order[j],
        )
}

/// The order of the rows by their keys, rows with equal keys in their given order.
pub open spec fn stable_order(keys: Seq<Seq<i64>>, descending: bool) -> Seq<usize> {
    choose|order: Seq<usize>| is_stable_order(keys, descending, order)
}

/// The rows in the given order.
pub open spec fn arranged<T>(rows: Seq<T>, order: Seq<usize>) -> Seq<T> {
    order.map_values(|i: usize| rows[i as int])
}

/// The rows by their keys, rows with equal keys in their given order.
pub open spec fn ordered_by<T>(rows: Seq<T>, keys: Seq<Seq<i64>>, descending: bool) -> Seq<T> {
    arranged(rows, stable_order(keys, descending))
}

/// The first `limit` rows; all of them where `limit` is negative.
pub open spec fn limited<T>(rows: Seq<T>, limit: int) -> Seq<T> {
    if 0 <= limit < rows.len() {
        rows.take(limit)
    } else {
        rows
    }
}

/// The dictionary order is a strict order in which two different sequences always compare.
pub proof fn lemma_lex_total(a: Seq<i64>, b: Seq<i64>)
    ensures
        !lex_less(a, a),
        !(lex_less(a, b) && lex_less(b, a)),
        a != b ==> lex_less(a, b) || lex_less(b, a),
    decreases a.len(),
{
    if a.len() > 0 {
        lemma_lex_total(a.drop_first(), a.drop_first());
    }
    if a.len() > 0 && b.len() > 0 {
        lemma_lex_total(a.drop_first(), b.drop_first());
        if a[0] == b[0] && a.drop_first() == b.drop_first() {
            assert(a == seq![a[0]] + a.drop_first());
            assert(b == seq![b[0]] + b.drop_first());
        }
    } else if a.len() == 0 && b.len() == 0 {
        assert(a == b);
    }
}

/// The dictionary order is transitive.
pub proof fn lemma_lex_transitive(a: Seq<i64>, b: Seq<i64>, c: Seq<i64>)
    requires
        lex_less(a, b),
        lex_less(b, c),
    ensures
        lex_less(a, c),
    decreases a.len(),
{
    if a.len() > 0 && a[0] == b[0] && b[0] == c[0] {
        lemma_lex_transitive(a.drop_first(), b.drop_first(), c.drop_first());
    }
}

proof fn lemma_ranks_total(keys: Seq<Seq<i64>>, descending: bool, a: usize, b: usize)
    ensures
        !ranks_before(keys, descending, a, a),
        !(ranks_before(keys, descending, a, b) && ranks_before(keys, descending, b, a)),
        a != b ==> ranks_before(keys, descending, a, b) || ranks_before(keys, descending, b, a),
{
    lemma_lex_total(keys[a as int], keys[b as int]);
}

proof fn lemma_ranks_transitive(keys: Seq<Seq<i64>>, descending: bool, a: usize, b: usize, c: usize)
    requires
        ranks_before(keys, descending, a, b),
        ranks_before(keys, descending, b, c),
    ensures
        ranks_before(keys, descending, a, c),
{
    let x = keys[a as int];
    let y = keys[b as int];
    let z = keys[c as int];
    lemma_lex_total(x, y);
    lemma_lex_total(y, z);
    lemma_lex_total(x, z);
    if x != y && y != z {
        if descending {
            lemma_lex_transitive(z, y, x);
        } else {
            lemma_lex_transitive(x, y, z);
        }
    }
}

/// There is one order of the rows by their keys, and no second.
pub proof fn law_stable_order_is_unique(
    keys: Seq<Seq<i64>>,
    descending: bool,
    one: Seq<usize>,
    two: Seq<usize>,
)
    requires
        is_stable_order(keys, descending, one),
        is_stable_order(keys, descending, two),
    ensures
        one == two,
{
    assert forall|k: int| 0 <= k < one.len() implies one[k] == two[k] by {
        lemma_same_at(keys, descending, one, two, k);
    }
    assert(one =~= two);
}

proof fn lemma_same_at(
    keys: Seq<Seq<i64>>,
    descending: bool,
    one: Seq<usize>,
    two: Seq<usize>,
    k: int,
)
    requires
        is_stable_order(keys, descending, one),
        is_stable_order(keys, descending, two),
        0 <= k < one.len(),
    ensures
        one[k] == two[k],
    decreases k,
{
    assert forall|m: int| 0 <= m < k implies one[m] == two[m] by {
        lemma_same_at(keys, descending, one, two, m);
    }
    let x = one[k];
    let y = two[k];
    if x != y {
        assert(two.contains(x));
        let p = choose|p: int| 0 <= p < two.len() && two[p] == x;
        assert(one.contains(y));
        let q = choose|q: int| 0 <= q < one.len() && one[q] == y;
        if p < k {
            assert(one[p] == two[p]);
            lemma_ranks_total(keys, descending, x, x);
        }
        if q < k {
            assert(one[q] == two[q]);
            lemma_ranks_total(keys, descending, y, y);
        }
        assert(ranks_before(keys, descending, two[k], two[p]));
        assert(ranks_before(keys, descending, one[k], one[q]));
        lemma_ranks_total(keys, descending, x, y);
    }
}

/// The keys as number sequences.
pub open spec fn key_views(keys: Seq<Vec<i64>>) -> Seq<Seq<i64>> {
    keys.map_values(|k: Vec<i64>| k@)
}

fn lex_before(a: &Vec<i64>, b: &Vec<i64>) -> (r: bool)
    ensures
        r == lex_less(a@, b@),
{
    let mut i: usize = 0;
    assert(a@.skip(0) == a@ && b@.skip(0) == b@);
    while i < a.len() && i < b.len()
        invariant
            i <= a.len(),
            i <= b.len(),
            lex_less(a@, b@) == lex_less(a@.skip(i as int), b@.skip(i as int)),
        decreases a.len() - i,
    {
        if a[i] != b[i] {
            return a[i] < b[i];
        }
        assert(a@.skip(i as int).drop_first() == a@.skip(i + 1));
        assert(b@.skip(i as int).drop_first() == b@.skip(i + 1));
        i = i + 1;
    }
    i < b.len()
}

fn before(keys: &Vec<Vec<i64>>, descending: bool, a: usize, b: usize) -> (r: bool)
    requires
        a < keys@.len(),
        b < keys@.len(),
    ensures
        r == ranks_before(key_views(keys@), descending, a, b),
{
    proof {
        lemma_lex_total(keys@[a as int]@, keys@[b as int]@);
    }
    let (first, second): (usize, usize) = if descending { (b, a) } else { (a, b) };
    if lex_before(&keys[first], &keys[second]) {
        true
    } else if lex_before(&keys[second], &keys[first]) {
        false
    } else {
        a < b
    }
}

/// `order` lists the indices from `lo` to `hi`, by their keys.
spec fn sorts_range(
    keys: Seq<Seq<i64>>,
    descending: bool,
    order: Seq<usize>,
    lo: int,
    hi: int,
) -> bool {
    &&& order.len() == hi - lo
    &&& forall|i: int| 0 <= i < order.len() ==> lo <= #[trigger] order[i] < hi
    &&& forall|v: usize| lo <= v < hi ==> #[trigger] order.contains(v)
    &&& strictly_sorted(keys, descending, order)
}

spec fn strictly_sorted(keys: Seq<Seq<i64>>, descending: bool, order: Seq<usize>) -> bool {
    forall|i: int, j: int|
        0 <= i < j < order.len() ==> ranks_before(
            keys,
            descending,
            #[trigger] order[i],
            #[trigger] order[j],
        )
}

/// Every row of `order` comes before the rows of `rest` from `from` on.
spec fn all_before(
    keys: Seq<Seq<i64>>,
    descending: bool,
    order: Seq<usize>,
    rest: Seq<usize>,
    from: int,
) -> bool {
    forall|i: int, j: int|
        0 <= i < order.len() && from <= j < rest.len() ==> ranks_before(
            keys,
            descending,
            #[trigger] order[i],
            #[trigger] rest[j],
        )
}

proof fn lemma_merge_step(
    keys: Seq<Seq<i64>>,
    descending: bool,
    out: Seq<usize>,
    taken: Seq<usize>,
    i: int,
    other: Seq<usize>,
    j: int,
)
    requires
        0 <= i < taken.len(),
        0 <= j <= other.len(),
        strictly_sorted(keys, descending, out),
        strictly_sorted(keys, descending, taken),
        strictly_sorted(keys, descending, other),
        all_before(keys, descending, out, taken, i),
        all_before(keys, descending, out, other, j),
        j < other.len() ==> ranks_before(keys, descending, taken[i], other[j]),
    ensures
        strictly_sorted(keys, descending, out.push(taken[i])),
        all_before(keys, descending, out.push(taken[i]), taken, i + 1),
        all_before(keys, descending, out.push(taken[i]), other, j),
{
    let next = out.push(taken[i]);
    assert forall|a: int, b: int|
        0 <= a < next.len() && j <= b < other.len() implies ranks_before(
        keys,
        descending,
        #[trigger] next[a],
        #[trigger] other[b],
    ) by {
        if a == out.len() && b > j {
            assert(ranks_before(keys, descending, other[j], other[b]));
            lemma_ranks_transitive(keys, descending, taken[i], other[j], other[b]);
        } else if a < out.len() {
            assert(next[a] == out[a]);
        }
    }
}

fn merge(
    keys: &Vec<Vec<i64>>,
    descending: bool,
    left: &Vec<usize>,
    right: &Vec<usize>,
    Ghost(lo): Ghost<int>,
    Ghost(mid): Ghost<int>,
    Ghost(hi): Ghost<int>,
) -> (out: Vec<usize>)
    requires
        0 <= lo <= mid <= hi <= keys@.len(),
        sorts_range(key_views(keys@), descending, left@, lo, mid),
        sorts_range(key_views(keys@), descending, right@, mid, hi),
    ensures
        sorts_range(key_views(keys@), descending, out@, lo, hi),
{
    let ghost kv = key_views(keys@);
    let mut out: Vec<usize> = Vec::new();
    let mut i: usize = 0;
    let mut j: usize = 0;
    while i < left.len() || j < right.len()
        invariant
            i <= left.len(),
            j <= right.len(),
            kv == key_views(keys@),
            0 <= lo <= mid <= hi <= keys@.len(),
            sorts_range(kv, descending, left@, lo, mid),
            sorts_range(kv, descending, right@, mid, hi),
            out@.len() == i + j,
            strictly_sorted(kv, descending, out@),
            all_before(kv, descending, out@, left@, i as int),
            all_before(kv, descending, out@, right@, j as int),
            forall|k: int| 0 <= k < out@.len() ==> lo <= #[trigger] out@[k] < hi,
            forall|k: int| 0 <= k < i ==> out@.contains(#[trigger] left@[k]),
            forall|k: int| 0 <= k < j ==> out@.contains(#[trigger] right@[k]),
        decreases (left.len() - i) + (right.len() - j),
    {
        let ghost before_push = out@;
        let from_left: bool = if i == left.len() {
            false
        } else if j == right.len() {
            true
        } else {
            before(keys, descending, left[i], right[j])
        };
        if from_left {
            proof {
                lemma_merge_step(kv, descending, out@, left@, i as int, right@, j as int);
            }
            out.push(left[i]);
            i = i + 1;
        } else {
            proof {
                if i < left.len() {
                    lemma_ranks_total(kv, descending, left@[i as int], right@[j as int]);
                }
                lemma_merge_step(kv, descending, out@, right@, j as int, left@, i as int);
            }
            out.push(right[j]);
            j = j + 1;
        }
        assert(out@[before_push.len() as int] == out@.last());
        assert forall|v: usize| before_push.contains(v) implies #[trigger] out@.contains(v) by {
            let k = choose|k: int| 0 <= k < before_push.len() && before_push[k] == v;
            assert(out@[k] == v);
        }
        assert(out@.contains(out@.last()));
    }
    assert forall|v: usize| lo <= v < hi implies #[trigger] out@.contains(v) by {
        if v < mid {
            assert(left@.contains(v));
        } else {
            assert(right@.contains(v));
        }
    }
    out
}

fn sort_range(keys: &Vec<Vec<i64>>, descending: bool, lo: usize, hi: usize) -> (out: Vec<usize>)
    requires
        lo <= hi <= keys@.len(),
    ensures
        sorts_range(key_views(keys@), descending, out@, lo as int, hi as int),
    decreases hi - lo,
{
    if hi - lo <= 1 {
        let mut out: Vec<usize> = Vec::new();
        if lo < hi {
            out.push(lo);
            assert(out@[0] == lo);
        }
        out
    } else {
        let mid: usize = lo + (hi - lo) / 2;
        let left: Vec<usize> = sort_range(keys, descending, lo, mid);
        let right: Vec<usize> = sort_range(keys, descending, mid, hi);
        merge(
            keys,
            descending,
            &left,
            &right,
            Ghost(lo as int),
            Ghost(mid as int),
            Ghost(hi as int),
        )
    }
}

/// Orders rows by their keys; rows with equal keys keep their given order.
pub fn order_by(keys: &Vec<Vec<i64>>, descending: bool) -> (order: Vec<usize>)
    ensures
        order@ == stable_order(key_views(keys@), descending),
        is_stable_order(key_views(keys@), descending, order@),
{
    let order: Vec<usize> = sort_range(keys, descending, 0, keys.len());
    proof {
        let kv = key_views(keys@);
        assert(is_stable_order(kv, descending, order@));
        law_stable_order_is_unique(kv, descending, order@, stable_order(kv, descending));
    }
    order
}

/// Where the row `x` belongs in a sorted list of other rows.
proof fn lemma_place(keys: Seq<Seq<i64>>, descending: bool, order: Seq<usize>, x: usize) -> (p: int)
    requires
        strictly_sorted(keys, descending, order),
        !order.contains(x),
    ensures
        0 <= p <= order.len(),
        forall|i: int| 0 <= i < p ==> ranks_before(keys, descending, #[trigger] order[i], x),
        forall|i: int|
            p <= i < order.len() ==> ranks_before(keys, descending, x, #[trigger] order[i]),
    decreases order.len(),
{
    if order.len() == 0 {
        0
    } else {
        let last = order.last();
        assert(order[order.len() - 1] == last);
        lemma_ranks_total(keys, descending, last, x);
        if ranks_before(keys, descending, last, x) {
            assert forall|i: int| 0 <= i < order.len() implies ranks_before(
                keys,
                descending,
                #[trigger] order[i],
                x,
            ) by {
                if i < order.len() - 1 {
                    assert(ranks_before(keys, descending, order[i], order[order.len() - 1]));
                    lemma_ranks_transitive(keys, descending, order[i], last, x);
                }
            }
            order.len() as int
        } else {
            let rest = order.drop_last();
            assert forall|i: int, j: int| 0 <= i < j < rest.len() implies ranks_before(
                keys,
                descending,
                #[trigger] rest[i],
                #[trigger] rest[j],
            ) by {
                assert(rest[i] == order[i] && rest[j] == order[j]);
            }
            if rest.contains(x) {
                let k = choose|k: int| 0 <= k < rest.len() && rest[k] == x;
                assert(order[k] == x);
            }
            let p = lemma_place(keys, descending, rest, x);
            assert forall|i: int| 0 <= i < p implies ranks_before(
                keys,
                descending,
                #[trigger] order[i],
                x,
            ) by {
                assert(order[i] == rest[i]);
            }
            assert forall|i: int| p <= i < order.len() implies ranks_before(
                keys,
                descending,
                x,
                #[trigger] order[i],
            ) by {
                if i < rest.len() {
                    assert(order[i] == rest[i]);
                }
            }
            p
        }
    }
}

/// Rows can always be ordered by their keys.
pub proof fn law_stable_order_exists(keys: Seq<Seq<i64>>, descending: bool)
    requires
        keys.len() <= usize::MAX,
    ensures
        is_stable_order(keys, descending, stable_order(keys, descending)),
    decreases keys.len(),
{
    if keys.len() == 0 {
        assert(is_stable_order(keys, descending, Seq::<usize>::empty()));
    } else {
        let shorter = keys.drop_last();
        let n = shorter.len() as int;
        law_stable_order_exists(shorter, descending);
        let rest = stable_order(shorter, descending);
        let x = n as usize;
        assert forall|i: int, j: int| 0 <= i < j < rest.len() implies ranks_before(
            keys,
            descending,
            #[trigger] rest[i],
            #[trigger] rest[j],
        ) by {
            assert(ranks_before(shorter, descending, rest[i], rest[j]));
            assert(keys[rest[i] as int] == shorter[rest[i] as int]);
            assert(keys[rest[j] as int] == shorter[rest[j] as int]);
        }
        let p = lemma_place(keys, descending, rest, x);
        let order = rest.insert(p, x);
        assert forall|v: usize| v < keys.len() implies #[trigger] order.contains(v) by {
            if v == x {
                assert(order[p] == x);
            } else {
                assert(rest.contains(v));
                let k = choose|k: int| 0 <= k < rest.len() && rest[k] == v;
                assert(order[if k < p { k } else { k + 1 }] == v);
            }
        }
        assert forall|i: int| 0 <= i < order.len() implies #[trigger] order[i] < keys.len() by {
            if i < p {
                assert(order[i] == rest[i]);
            } else if i > p {
                assert(order[i] == rest[i - 1]);
            }
        }
        assert forall|i: int, j: int| 0 <= i < j < order.len() implies ranks_before(
            keys,
            descending,
            #[trigger] order[i],
            #[trigger] order[j],
        ) by {
            let a = if i < p { i } else { i - 1 };
            let b = if j < p { j } else { j - 1 };
            if i != p {
                assert(order[i] == rest[a]);
            }
            if j != p {
                assert(order[j] == rest[b]);
            }
        }
        assert(is_stable_order(keys, descending, order));
    }
}

/// Filtering one row more.
pub proof fn lemma_filter_step<T>(rows: Seq<T>, keep: spec_fn(T) -> bool, i: int)
    requires
        0 <= i < rows.len(),
    ensures
        rows.take(i + 1).filter(keep) == (if keep(rows[i]) {
            rows.take(i).filter(keep).push(rows[i])
        } else {
            rows.take(i).filter(keep)
        }),
{
    reveal(Seq::filter);
    assert(rows.take(i + 1).drop_last() == rows.take(i));
    assert(rows.take(i + 1).last() == rows[i]);
}

} // verus!
