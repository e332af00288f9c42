//! Putting positions in order, equal ones staying as they came.

use vstd::prelude::*;

verus! {

/// `x` put into an ordered list: before those it comes before, behind all
/// others.
pub open spec fn put_in(list: Seq<usize>, x: usize, less: spec_fn(usize, usize) -> bool) -> Seq<
    usize,
>
    decreases list.len(),
{
    if list.len() == 0 || !less(x, list.last()) {
        list.push(x)
    } else {
        put_in(list.drop_last(), x, less).push(list.last())
    }
}

/// The list in order: each item in turn put behind those it does not come
/// before, so that equal items stay as they came.
pub open spec fn in_order(list: Seq<usize>, less: spec_fn(usize, usize) -> bool) -> Seq<usize>
    decreases list.len(),
{
    if list.len() == 0 {
        Seq::empty()
    } else {
        put_in(in_order(list.drop_last(), less), list.last(), less)
    }
}

/// A list whose items are all positions below `n`.
pub open spec fn all_below(list: Seq<usize>, n: int) -> bool {
    forall|i: int| 0 <= i < list.len() ==> (#[trigger] list[i]) < n
}

pub proof fn lemma_put_in(list: Seq<usize>, x: usize, less: spec_fn(usize, usize) -> bool)
    ensures
        put_in(list, x, less).len() == list.len() + 1,
        put_in(list, x, less).to_multiset() == list.to_multiset().insert(x),
        forall|n: int| #![auto] all_below(list, n) && x < n ==> all_below(put_in(list, x, less), n),
    decreases list.len(),
{
    broadcast use vstd::seq_lib::group_to_multiset_ensures;

    if list.len() == 0 || !less(x, list.last()) {
    } else {
        let front = list.drop_last();
        lemma_put_in(front, x, less);
        assert(list =~= front.push(list.last()));
        assert(front.to_multiset().insert(x).insert(list.last())
            =~= front.to_multiset().insert(list.last()).insert(x));
        assert forall|n: int| #![auto] all_below(list, n) && x < n implies all_below(
            put_in(list, x, less),
            n,
        ) by {
            assert(all_below(front, n));
            assert(list[list.len() - 1] < n);
        }
    }
}

/// Ordering keeps every item, as often as it came.
pub proof fn ordering_keeps_every_item(list: Seq<usize>, less: spec_fn(usize, usize) -> bool)
    ensures
        in_order(list, less).len() == list.len(),
        in_order(list, less).to_multiset() == list.to_multiset(),
        forall|n: int| #![auto] all_below(list, n) ==> all_below(in_order(list, less), n),
    decreases list.len(),
{
    broadcast use vstd::seq_lib::group_to_multiset_ensures;

    if list.len() > 0 {
        let front = list.drop_last();
        ordering_keeps_every_item(front, less);
        lemma_put_in(in_order(front, less), list.last(), less);
        assert(list =~= front.push(list.last()));
        assert forall|n: int| #![auto] all_below(list, n) implies all_below(
            in_order(list, less),
            n,
        ) by {
            assert(all_below(front, n));
            assert(list[list.len() - 1] < n);
        }
    } else {
        assert(in_order(list, less) =~= list);
    }
}

/// No item of the list comes before one that stands ahead of it.
pub open spec fn is_ordered(list: Seq<usize>, less: spec_fn(usize, usize) -> bool) -> bool {
    forall|i: int, j: int| 0 <= i < j < list.len() ==> !less(#[trigger] list[j], #[trigger] list[i])
}

/// What an order has to be for a list to be put in it: what comes before
/// something comes before everything that does not come before that.
pub open spec fn is_an_order(less: spec_fn(usize, usize) -> bool) -> bool {
    &&& forall|a: usize, b: usize| #[trigger] less(a, b) ==> !less(b, a)
    &&& forall|a: usize, b: usize, c: usize|
        #[trigger] less(a, b) && !#[trigger] less(c, b) ==> less(a, c)
}

proof fn lemma_put_in_ordered(list: Seq<usize>, x: usize, less: spec_fn(usize, usize) -> bool)
    requires
        is_an_order(less),
        is_ordered(list, less),
    ensures
        is_ordered(put_in(list, x, less), less),
        forall|y: usize|
            put_in(list, x, less).contains(y) ==> y == x || list.contains(y),
    decreases list.len(),
{
    let r = put_in(list, x, less);
    if list.len() == 0 || !less(x, list.last()) {
        assert forall|i: int, j: int| 0 <= i < j < r.len() implies !less(
            #[trigger] r[j],
            #[trigger] r[i],
        ) by {
            if j == list.len() && i < list.len() - 1 {
                assert(!less(list[list.len() - 1], list[i]));
                if less(x, list[i]) {
                    assert(less(x, list[list.len() - 1]));
                }
            }
        }
        assert forall|y: usize| r.contains(y) implies y == x || list.contains(y) by {
            let k = choose|k: int| 0 <= k < r.len() && r[k] == y;
            if k < list.len() {
                assert(list[k] == y);
            }
        }
    } else {
        let front = list.drop_last();
        assert(is_ordered(front, less)) by {
            assert forall|i: int, j: int| 0 <= i < j < front.len() implies !less(
                #[trigger] front[j],
                #[trigger] front[i],
            ) by {
                assert(!less(list[j], list[i]));
            }
        }
        lemma_put_in_ordered(front, x, less);
        let head = put_in(front, x, less);
        assert forall|i: int, j: int| 0 <= i < j < r.len() implies !less(
            #[trigger] r[j],
            #[trigger] r[i],
        ) by {
            if j == head.len() {
                let y = head[i];
                assert(put_in(front, x, less).contains(y));
                assert(r[j] == list.last() && r[i] == y);
                assert(less(x, list.last()));
                if y != x {
                    assert(front.contains(y));
                    let k = choose|k: int| 0 <= k < front.len() && front[k] == y;
                    assert(!less(list[list.len() - 1], list[k]));
                }
            } else {
                assert(!less(head[j], head[i]));
            }
        }
        assert forall|y: usize| r.contains(y) implies y == x || list.contains(y) by {
            let k = choose|k: int| 0 <= k < r.len() && r[k] == y;
            if k < head.len() {
                assert(head[k] == y);
                assert(put_in(front, x, less).contains(y));
                if y != x {
                    assert(front.contains(y));
                    let m = choose|m: int| 0 <= m < front.len() && front[m] == y;
                    assert(list[m] == y);
                }
            } else {
                assert(list[list.len() - 1] == y);
            }
        }
    }
}

/// Putting a list in an order orders it.
pub proof fn ordering_orders(list: Seq<usize>, less: spec_fn(usize, usize) -> bool)
    requires
        is_an_order(less),
    ensures
        is_ordered(in_order(list, less), less),
    decreases list.len(),
{
    if list.len() > 0 {
        ordering_orders(list.drop_last(), less);
        lemma_put_in_ordered(in_order(list.drop_last(), less), list.last(), less);
    }
}

/// Puts positions in order. `comes_first` decides `less`.
pub(crate) fn stable_order<F: Fn(usize, usize) -> bool>(
    items: &[usize],
    bound: usize,
    comes_first: F,
    Ghost(less): Ghost<spec_fn(usize, usize) -> bool>,
) -> (r: Vec<usize>)
    requires
        all_below(items@, bound as int),
        forall|a: usize, b: usize|
            a < bound && b < bound ==> #[trigger] call_requires(comes_first, (a, b)),
        forall|a: usize, b: usize, c: bool|
            a < bound && b < bound && #[trigger] call_ensures(comes_first, (a, b), c) ==> c
                == less(a, b),
    ensures
        r@ == in_order(items@, less),
        all_below(r@, bound as int),
        r@.len() == items@.len(),
{
    let mut out: Vec<usize> = Vec::new();
    let mut i: usize = 0;
    while i < items.len()
        invariant
            i <= items.len(),
            all_below(items@, bound as int),
            all_below(out@, bound as int),
            out@ == in_order(items@.take(i as int), less),
            forall|a: usize, b: usize|
                a < bound && b < bound ==> #[trigger] call_requires(comes_first, (a, b)),
            forall|a: usize, b: usize, c: bool|
                a < bound && b < bound && #[trigger] call_ensures(comes_first, (a, b), c) ==> c
                    == less(a, b),
        decreases items.len() - i,
    {
        let x: usize = items[i];
        let ghost before = out@;
        let mut at: usize = out.len();
        assert(before.take(at as int) =~= before);
        assert(before.skip(at as int) =~= Seq::empty());
        while at > 0 && comes_first(x, out[at - 1])
            invariant
                at <= out.len(),
                out@ == before,
                x < bound,
                all_below(out@, bound as int),
                put_in(before, x, less) == put_in(before.take(at as int), x, less) + before.skip(
                    at as int,
                ),
                forall|a: usize, b: usize|
                    a < bound && b < bound ==> #[trigger] call_requires(comes_first, (a, b)),
                forall|a: usize, b: usize, c: bool|
                    a < bound && b < bound && #[trigger] call_ensures(comes_first, (a, b), c) ==> c
                        == less(a, b),
            ensures
                at <= out.len(),
                out@ == before,
                put_in(before, x, less) == put_in(before.take(at as int), x, less) + before.skip(
                    at as int,
                ),
                at > 0 ==> !less(x, before[at - 1]),
            decreases at,
        {
            let ghost head = before.take(at as int);
            assert(head.last() == before[at - 1]);
            assert(head.drop_last() =~= before.take(at - 1));
            assert(put_in(before.take(at - 1), x, less).push(before[at - 1]) + before.skip(
                at as int,
            ) =~= put_in(before.take(at - 1), x, less) + before.skip(at - 1));
            at = at - 1;
        }
        assert(put_in(before.take(at as int), x, less) =~= before.take(at as int).push(x));
        out.insert(at, x);
        assert(out@ =~= before.take(at as int).push(x) + before.skip(at as int));
        assert(items@.take(i as int + 1).drop_last() =~= items@.take(i as int));
        proof {
            lemma_put_in(before, x, less);
        }
        i = i + 1;
    }
    assert(items@.take(i as int) =~= items@);
    proof {
        ordering_keeps_every_item(items@, less);
    }
    out
}

/// Those of a list that `keep` holds of, in their order.
pub open spec fn those(list: Seq<usize>, keep: spec_fn(usize) -> bool) -> Seq<usize>
    decreases list.len(),
{
    if list.len() == 0 {
        Seq::empty()
    } else {
        let before = those(list.drop_last(), keep);
        if keep(list.last()) {
            before.push(list.last())
        } else {
            before
        }
    }
}

/// Picking keeps only items of the list, and only those it holds of.
pub proof fn lemma_those(list: Seq<usize>, keep: spec_fn(usize) -> bool)
    ensures
        forall|x: usize| those(list, keep).contains(x) <==> list.contains(x) && keep(x),
        forall|n: int| #![auto] all_below(list, n) ==> all_below(those(list, keep), n),
        those(list, keep).len() <= list.len(),
    decreases list.len(),
{
    if list.len() > 0 {
        let front = list.drop_last();
        lemma_those(front, keep);
        let before = those(front, keep);
        let r = those(list, keep);
        assert forall|x: usize| r.contains(x) <==> list.contains(x) && keep(x) by {
            if r.contains(x) {
                let k = choose|k: int| 0 <= k < r.len() && r[k] == x;
                if k < before.len() {
                    assert(before[k] == x);
                    assert(front.contains(x));
                    let m = choose|m: int| 0 <= m < front.len() && front[m] == x;
                    assert(list[m] == x);
                } else {
                    assert(list[list.len() - 1] == x);
                }
            }
            if list.contains(x) && keep(x) {
                let m = choose|m: int| 0 <= m < list.len() && list[m] == x;
                if m < front.len() {
                    assert(front[m] == x);
                    assert(front.contains(x));
                    assert(before.contains(x));
                    let k = choose|k: int| 0 <= k < before.len() && before[k] == x;
                    assert(r[k] == x);
                } else {
                    assert(r[r.len() - 1] == x);
                }
            }
        }
        assert forall|n: int| #![auto] all_below(list, n) implies all_below(r, n) by {
            assert forall|k: int| 0 <= k < front.len() implies (#[trigger] front[k]) < n by {
                assert(list[k] < n);
            }
            assert(all_below(front, n));
            assert(list[list.len() - 1] < n);
            assert(all_below(before, n));
        }
    } else {
        assert forall|x: usize| those(list, keep).contains(x) <==> list.contains(x) && keep(
            x,
        ) by {}
    }
}

/// An item is kept when it was there and is wanted.
pub proof fn lemma_kept(list: Seq<usize>, keep: spec_fn(usize) -> bool, x: usize)
    ensures
        those(list, keep).contains(x) <==> list.contains(x) && keep(x),
{
    lemma_those(list, keep);
    assert(list.contains(x) || !list.contains(x));
}

/// Picks positions. `wanted` decides `keep`.
pub(crate) fn pick<F: Fn(usize) -> bool>(
    items: &[usize],
    bound: usize,
    wanted: F,
    Ghost(keep): Ghost<spec_fn(usize) -> bool>,
) -> (r: Vec<usize>)
    requires
        all_below(items@, bound as int),
        forall|a: usize| a < bound ==> #[trigger] call_requires(wanted, (a,)),
        forall|a: usize, c: bool|
            a < bound && #[trigger] call_ensures(wanted, (a,), c) ==> c == keep(a),
    ensures
        r@ == those(items@, keep),
        all_below(r@, bound as int),
{
    let mut out: Vec<usize> = Vec::new();
    let mut i: usize = 0;
    while i < items.len()
        invariant
            i <= items.len(),
            all_below(items@, bound as int),
            out@ == those(items@.take(i as int), keep),
            forall|a: usize| a < bound ==> #[trigger] call_requires(wanted, (a,)),
            forall|a: usize, c: bool|
                a < bound && #[trigger] call_ensures(wanted, (a,), c) ==> c == keep(a),
        decreases items.len() - i,
    {
        let x: usize = items[i];
        assert(items@.take(i as int + 1).drop_last() =~= items@.take(i as int));
        if wanted(x) {
            out.push(x);
        }
        i = i + 1;
    }
    assert(items@.take(i as int) =~= items@);
    proof {
        lemma_those(items@, keep);
    }
    out
}

/// The positions below `n`, in order.
pub open spec fn positions(n: int) -> Seq<usize> {
    Seq::new(n as nat, |i: int| i as usize)
}

pub(crate) fn positions_below(n: usize) -> (r: Vec<usize>)
    ensures
        r@ == positions(n as int),
        all_below(r@, n as int),
{
    let mut out: Vec<usize> = Vec::new();
    let mut i: usize = 0;
    while i < n
        invariant
            i <= n,
            out@ == positions(i as int),
        decreases n - i,
    {
        out.push(i);
        i = i + 1;
        assert(out@ =~= positions(i as int));
    }
    out
}

/// Positions in their order, each once.
pub open spec fn is_ascending(list: Seq<usize>) -> bool {
    forall|a: int, b: int|
        0 <= a < b < list.len() ==> (#[trigger] list[a]) < (#[trigger] list[b])
}

/// Picking keeps the order.
pub proof fn lemma_ascending(list: Seq<usize>, keep: spec_fn(usize) -> bool)
    requires
        is_ascending(list),
    ensures
        is_ascending(those(list, keep)),
    decreases list.len(),
{
    if list.len() > 0 {
        let front = list.drop_last();
        assert forall|a: int, b: int| 0 <= a < b < front.len() implies (#[trigger] front[a]) < (
        #[trigger] front[b]) by {
            assert(front[a] == list[a] && front[b] == list[b]);
        }
        lemma_ascending(front, keep);
        let before = those(front, keep);
        let r = those(list, keep);
        assert forall|a: int, b: int| 0 <= a < b < r.len() implies (#[trigger] r[a]) < (
        #[trigger] r[b]) by {
            if b < before.len() {
                assert(r[a] == before[a] && r[b] == before[b]);
            } else {
                assert(before.contains(before[a]));
                lemma_kept(front, keep, before[a]);
                let k = choose|k: int| 0 <= k < front.len() && front[k] == before[a];
                assert(list[k] < list[list.len() - 1]);
            }
        }
    }
}

/// Items of which each earlier one stands in a relation to each later one.
pub open spec fn are_in_turn(list: Seq<usize>, le: spec_fn(usize, usize) -> bool) -> bool {
    forall|i: int, j: int| 0 <= i < j < list.len() ==> le(#[trigger] list[i], #[trigger] list[j])
}

/// An order decides a relation among items: whichever way two of them go, the
/// first stands in the relation to the second, and the relation is transitive.
pub open spec fn decides(
    list: Seq<usize>,
    less: spec_fn(usize, usize) -> bool,
    le: spec_fn(usize, usize) -> bool,
) -> bool {
    &&& forall|a: usize, b: usize|
        list.contains(a) && list.contains(b) ==> if #[trigger] less(a, b) {
            le(a, b)
        } else {
            le(b, a)
        }
    &&& forall|a: usize, b: usize, c: usize|
        list.contains(a) && list.contains(b) && list.contains(c) && #[trigger] le(a, b)
            && #[trigger] le(b, c) ==> le(a, c)
}

/// Items put in an order stand in every relation it decides.
pub proof fn ordering_puts_in_turn(
    list: Seq<usize>,
    less: spec_fn(usize, usize) -> bool,
    le: spec_fn(usize, usize) -> bool,
)
    requires
        decides(list, less, le),
    ensures
        are_in_turn(in_order(list, less), le),
        forall|k: int|
            0 <= k < in_order(list, less).len() ==> list.contains(
                #[trigger] in_order(list, less)[k],
            ),
    decreases list.len(),
{
    if list.len() > 0 {
        let front = list.drop_last();
        assert forall|a: usize| #[trigger] front.contains(a) implies list.contains(a) by {
            let k = choose|k: int| 0 <= k < front.len() && front[k] == a;
            assert(list[k] == a);
        }
        ordering_puts_in_turn(front, less, le);
        assert(list[list.len() - 1] == list.last());
        lemma_put_in_turn(list, in_order(front, less), list.last(), less, le);
    }
}

proof fn lemma_put_in_turn(
    all: Seq<usize>,
    list: Seq<usize>,
    x: usize,
    less: spec_fn(usize, usize) -> bool,
    le: spec_fn(usize, usize) -> bool,
)
    requires
        decides(all, less, le),
        are_in_turn(list, le),
        all.contains(x),
        forall|k: int| 0 <= k < list.len() ==> all.contains(#[trigger] list[k]),
    ensures
        are_in_turn(put_in(list, x, less), le),
        forall|k: int|
            0 <= k < put_in(list, x, less).len() ==> all.contains(
                #[trigger] put_in(list, x, less)[k],
            ) && (put_in(list, x, less)[k] == x || list.contains(put_in(list, x, less)[k])),
    decreases list.len(),
{
    let r = put_in(list, x, less);
    if list.len() == 0 || !less(x, list.last()) {
        assert forall|i: int, j: int| 0 <= i < j < r.len() implies le(
            #[trigger] r[i],
            #[trigger] r[j],
        ) by {
            assert(r[i] == list[i]);
            let last = list[list.len() - 1];
            assert(all.contains(last) && all.contains(list[i]));
            if j < list.len() {
                assert(r[j] == list[j]);
            } else if i < list.len() - 1 {
                assert(le(list[i], last) && le(last, x));
            }
        }
        assert forall|k: int| 0 <= k < r.len() implies all.contains(#[trigger] r[k]) && (r[k] == x
            || list.contains(r[k])) by {
            if k < list.len() {
                assert(r[k] == list[k]);
            }
        }
    } else {
        let front = list.drop_last();
        let last = list.last();
        assert(list[list.len() - 1] == last);
        assert forall|i: int, j: int| 0 <= i < j < front.len() implies le(
            #[trigger] front[i],
            #[trigger] front[j],
        ) by {
            assert(front[i] == list[i] && front[j] == list[j]);
        }
        assert forall|k: int| 0 <= k < front.len() implies all.contains(#[trigger] front[k]) by {
            assert(front[k] == list[k]);
        }
        lemma_put_in_turn(all, front, x, less, le);
        let before = put_in(front, x, less);
        assert forall|k: int| 0 <= k < before.len() implies le(#[trigger] before[k], last) && (
        before[k] == x || list.contains(before[k])) by {
            if before[k] != x {
                let m = choose|m: int| 0 <= m < front.len() && front[m] == before[k];
                assert(list[m] == before[k]);
            } else {
                assert(all.contains(last));
            }
        }
        assert forall|i: int, j: int| 0 <= i < j < r.len() implies le(
            #[trigger] r[i],
            #[trigger] r[j],
        ) by {
            assert(r[i] == before[i]);
            if j < before.len() {
                assert(r[j] == before[j]);
            }
        }
        assert forall|k: int| 0 <= k < r.len() implies all.contains(#[trigger] r[k]) && (r[k] == x
            || list.contains(r[k])) by {
            if k < before.len() {
                assert(r[k] == before[k]);
            }
        }
    }
}

/// Picking keeps items in turn.
pub proof fn picking_keeps_the_turn(
    list: Seq<usize>,
    keep: spec_fn(usize) -> bool,
    le: spec_fn(usize, usize) -> bool,
)
    requires
        are_in_turn(list, le),
    ensures
        are_in_turn(those(list, keep), le),
    decreases list.len(),
{
    if list.len() > 0 {
        let front = list.drop_last();
        assert forall|i: int, j: int| 0 <= i < j < front.len() implies le(
            #[trigger] front[i],
            #[trigger] front[j],
        ) by {
            assert(front[i] == list[i] && front[j] == list[j]);
        }
        picking_keeps_the_turn(front, keep, le);
        let before = those(front, keep);
        let r = those(list, keep);
        assert forall|i: int, j: int| 0 <= i < j < r.len() implies le(
            #[trigger] r[i],
            #[trigger] r[j],
        ) by {
            assert(r[i] == before[i]);
            if j < before.len() {
                assert(r[j] == before[j]);
            } else {
                assert(before.contains(before[i]));
                lemma_kept(front, keep, before[i]);
                let k = choose|k: int| 0 <= k < front.len() && front[k] == before[i];
                assert(le(list[k], list[list.len() - 1]));
            }
        }
    }
}

} // verus!
