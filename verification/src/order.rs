//! Stable sorting: the order of the positions of a list by the keys of its
//! items, where items with the same key keep their order.

use vstd::multiset::Multiset;
use vstd::prelude::*;
use vstd::seq_lib::to_multiset_build;

verus! {

/// The order `order` with the position `k` put in behind all positions that
/// do not come after it.
pub open spec fn placed(order: Seq<int>, le: spec_fn(int, int) -> bool, k: int) -> Seq<int>
    decreases order.len(),
{
    if order.len() == 0 {
        seq![k]
    } else if le(order.last(), k) {
        order.push(k)
    } else {
        placed(order.drop_last(), le, k).push(order.last())
    }
}

/// The first `n` positions in the order that `le` gives them, positions that
/// it does not tell apart in their own order. `le(a, b)` says that the item
/// at `a` does not come after the item at `b`.
pub open spec fn stable_order_by(le: spec_fn(int, int) -> bool, n: nat) -> Seq<int>
    decreases n,
{
    if n == 0 {
        Seq::empty()
    } else {
        placed(stable_order_by(le, (n - 1) as nat), le, n - 1)
    }
}

/// The order of positions by their keys.
pub open spec fn by_keys(keys: Seq<i64>) -> spec_fn(int, int) -> bool {
    |a: int, b: int| keys[a] <= keys[b]
}

/// The positions of `keys` in the order of their keys, from the lowest key
/// to the highest, positions with the same key in their own order.
pub open spec fn stable_order(keys: Seq<i64>) -> Seq<int> {
    stable_order_by(by_keys(keys), keys.len())
}

/// Whether `le` orders the first `n` positions: of two positions one does
/// not come after the other, and what does not come after a position does
/// not come after those behind it.
pub open spec fn orders(le: spec_fn(int, int) -> bool, n: nat) -> bool {
    &&& forall|a: int, b: int| 0 <= a < n && 0 <= b < n ==> #[trigger] le(a, b) || le(b, a)
    &&& forall|a: int, b: int, c: int|
        0 <= a < n && 0 <= b < n && 0 <= c < n && #[trigger] le(a, b) && #[trigger] le(b, c)
            ==> le(a, c)
}

/// Whether `order` holds each of the first `n` positions once, sorted by
/// `le`, positions that `le` does not tell apart in their own order.
pub open spec fn is_stable_order(le: spec_fn(int, int) -> bool, n: nat, order: Seq<int>) -> bool {
    &&& order.len() == n
    &&& forall|i: int| 0 <= i < order.len() ==> 0 <= #[trigger] order[i] < n
    &&& forall|i: int, j: int|
        0 <= i < j < order.len() ==> le(#[trigger] order[i], #[trigger] order[j]) && (le(
            order[j],
            order[i],
        ) ==> order[i] < order[j])
}

/// The positions as integers.
pub open spec fn positions(order: Seq<usize>) -> Seq<int> {
    Seq::new(order.len(), |i: int| order[i] as int)
}

/// The items of a list in the order of `order`.
pub open spec fn reordered<T>(items: Seq<T>, order: Seq<int>) -> Seq<T> {
    Seq::new(order.len(), |i: int| items[order[i]])
}

/// What holds of a sorted order of positions below `k` after `k` was put in:
/// it holds `k` and what it held, and is sorted.
proof fn lemma_placed_holds(order: Seq<int>, le: spec_fn(int, int) -> bool, k: int)
    requires
        0 <= k,
        orders(le, (k + 1) as nat),
        forall|i: int| 0 <= i < order.len() ==> 0 <= #[trigger] order[i] < k,
        forall|i: int, j: int|
            0 <= i < j < order.len() ==> le(#[trigger] order[i], #[trigger] order[j]) && (le(
                order[j],
                order[i],
            ) ==> order[i] < order[j]),
    ensures
        placed(order, le, k).len() == order.len() + 1,
        forall|i: int|
            0 <= i < order.len() + 1 ==> (#[trigger] placed(order, le, k)[i] == k || exists|p: int|
                0 <= p < order.len() && order[p] == placed(order, le, k)[i]),
        forall|i: int, j: int|
            0 <= i < j < order.len() + 1 ==> le(
                #[trigger] placed(order, le, k)[i],
                #[trigger] placed(order, le, k)[j],
            ) && (le(placed(order, le, k)[j], placed(order, le, k)[i]) ==> placed(order, le, k)[i]
                < placed(order, le, k)[j]),
    decreases order.len(),
{
    let after = placed(order, le, k);
    if order.len() == 0 {
    } else if le(order.last(), k) {
        assert forall|i: int| 0 <= i < order.len() + 1 implies (#[trigger] after[i] == k || exists|
            p: int,
        |
            0 <= p < order.len() && order[p] == after[i]) by {
            if i < order.len() {
                assert(order[i] == after[i]);
            }
        }
        assert forall|i: int, j: int| 0 <= i < j < after.len() implies le(
            #[trigger] after[i],
            #[trigger] after[j],
        ) && (le(after[j], after[i]) ==> after[i] < after[j]) by {
            if j == after.len() - 1 {
                assert(after[i] == order[i]);
                if i < order.len() - 1 {
                    assert(le(order[i], order[order.len() - 1]));
                }
                assert(le(order[i], order.last()) || i == order.len() - 1);
                assert(le(order[i], k));
            } else {
                assert(after[i] == order[i] && after[j] == order[j]);
            }
        }
    } else {
        let front = order.drop_last();
        let last = order.last();
        assert forall|i: int, j: int| 0 <= i < j < front.len() implies le(
            #[trigger] front[i],
            #[trigger] front[j],
        ) && (le(front[j], front[i]) ==> front[i] < front[j]) by {
            assert(front[i] == order[i] && front[j] == order[j]);
        }
        assert forall|i: int| 0 <= i < front.len() implies 0 <= #[trigger] front[i] < k by {
            assert(front[i] == order[i]);
        }
        lemma_placed_holds(front, le, k);
        let shorter = placed(front, le, k);
        assert forall|i: int| 0 <= i < order.len() + 1 implies (#[trigger] after[i] == k || exists|
            p: int,
        |
            0 <= p < order.len() && order[p] == after[i]) by {
            if i < order.len() {
                assert(after[i] == shorter[i]);
                if shorter[i] != k {
                    let p = choose|p: int| 0 <= p < front.len() && front[p] == shorter[i];
                    assert(order[p] == after[i]);
                }
            } else {
                assert(order[order.len() - 1] == after[i]);
            }
        }
        assert(0 <= last < k) by {
            assert(order[order.len() - 1] == last);
        }
        assert(le(k, last));
        assert forall|i: int, j: int| 0 <= i < j < after.len() implies le(
            #[trigger] after[i],
            #[trigger] after[j],
        ) && (le(after[j], after[i]) ==> after[i] < after[j]) by {
            if j == after.len() - 1 {
                assert(after[j] == last);
                assert(after[i] == shorter[i]);
                if shorter[i] != k {
                    let p = choose|p: int| 0 <= p < front.len() && front[p] == shorter[i];
                    assert(order[p] == shorter[i]);
                    assert(le(order[p], order[order.len() - 1]) && (le(
                        order[order.len() - 1],
                        order[p],
                    ) ==> order[p] < order[order.len() - 1]));
                } else {
                    if le(last, k) {
                    }
                }
            } else {
                assert(after[i] == shorter[i] && after[j] == shorter[j]);
            }
        }
    }
}

/// Putting a position into an order puts it in at some place and leaves
/// the others where they were.
pub proof fn lemma_placed_somewhere(order: Seq<int>, le: spec_fn(int, int) -> bool, k: int)
    ensures
        exists|at: int| 0 <= at <= order.len() && placed(order, le, k) == #[trigger] order.insert(
            at,
            k,
        ),
    decreases order.len(),
{
    if order.len() == 0 {
        assert(placed(order, le, k) == order.insert(0, k));
    } else if le(order.last(), k) {
        assert(placed(order, le, k) == order.insert(order.len() as int, k));
    } else {
        let front = order.drop_last();
        lemma_placed_somewhere(front, le, k);
        let at = choose|at: int|
            0 <= at <= front.len() && placed(front, le, k) == #[trigger] front.insert(at, k);
        assert(front.insert(at, k).push(order.last()) == order.insert(at, k));
    }
}

/// The items of a list in their stable order are the items of the list,
/// each as often as it is there.
pub proof fn lemma_reordered_keeps<T>(items: Seq<T>, le: spec_fn(int, int) -> bool, n: nat)
    requires
        n <= items.len(),
    ensures
        reordered(items, stable_order_by(le, n)).to_multiset() == items.take(
            n as int,
        ).to_multiset(),
    decreases n,
{
    if n == 0 {
        assert(reordered(items, stable_order_by(le, n)) == items.take(0));
    } else {
        let before = stable_order_by(le, (n - 1) as nat);
        lemma_reordered_keeps(items, le, (n - 1) as nat);
        lemma_placed_somewhere(before, le, n - 1);
        let at = choose|at: int|
            0 <= at <= before.len() && placed(before, le, n - 1) == #[trigger] before.insert(
                at,
                n - 1,
            );
        let sorted = reordered(items, before.insert(at, n - 1));
        let shorter = reordered(items, before);
        assert(sorted.remove(at) == shorter);
        assert(sorted[at] == items[n - 1]);
        sorted.to_multiset_ensures();
        assert(sorted.to_multiset() == shorter.to_multiset().insert(items[n - 1])) by {
            assert(shorter.to_multiset() == sorted.to_multiset().remove(items[n - 1]));
            assert(sorted.contains(items[n - 1]));
            assert(sorted.to_multiset().remove(items[n - 1]).insert(items[n - 1])
                =~= sorted.to_multiset());
        }
        assert(items.take(n as int) == items.take(n - 1).push(items[n - 1]));
        to_multiset_build(items.take(n - 1), items[n - 1]);
    }
}

/// All that the parts hold, taken together.
pub open spec fn gathered<T>(parts: Seq<Multiset<T>>) -> Multiset<T>
    decreases parts.len(),
{
    if parts.len() == 0 {
        Multiset::empty()
    } else {
        gathered(parts.drop_last()).add(parts.last())
    }
}

/// What the parts hold together with one more part put in.
pub proof fn lemma_gathered_insert<T>(parts: Seq<Multiset<T>>, at: int, part: Multiset<T>)
    requires
        0 <= at <= parts.len(),
    ensures
        gathered(parts.insert(at, part)) == gathered(parts).add(part),
    decreases parts.len(),
{
    let more = parts.insert(at, part);
    if at == parts.len() {
        assert(more.drop_last() == parts);
    } else {
        assert(more.drop_last() == parts.drop_last().insert(at, part));
        assert(more.last() == parts.last());
        lemma_gathered_insert(parts.drop_last(), at, part);
        assert(gathered(parts.drop_last()).add(part).add(parts.last()) =~= gathered(
            parts.drop_last(),
        ).add(parts.last()).add(part));
    }
}

/// What the parts hold together does not depend on their order.
pub proof fn lemma_reordered_gathers<T>(
    parts: Seq<Multiset<T>>,
    le: spec_fn(int, int) -> bool,
    n: nat,
)
    requires
        n <= parts.len(),
    ensures
        gathered(reordered(parts, stable_order_by(le, n))) == gathered(parts.take(n as int)),
    decreases n,
{
    if n == 0 {
        assert(reordered(parts, stable_order_by(le, n)) == parts.take(0));
    } else {
        let before = stable_order_by(le, (n - 1) as nat);
        lemma_reordered_gathers(parts, le, (n - 1) as nat);
        lemma_placed_somewhere(before, le, n - 1);
        let at = choose|at: int|
            0 <= at <= before.len() && placed(before, le, n - 1) == #[trigger] before.insert(
                at,
                n - 1,
            );
        assert(reordered(parts, before.insert(at, n - 1)) == reordered(parts, before).insert(
            at,
            parts[n - 1],
        ));
        lemma_gathered_insert(reordered(parts, before), at, parts[n - 1]);
        assert(parts.take(n as int).drop_last() == parts.take(n - 1));
    }
}

/// The stable order is an order: it holds each position once, sorted,
/// positions that are not told apart in their own order.
pub proof fn lemma_stable_order_by(le: spec_fn(int, int) -> bool, n: nat)
    requires
        orders(le, n),
    ensures
        is_stable_order(le, n, stable_order_by(le, n)),
    decreases n,
{
    if n > 0 {
        lemma_stable_order_by(le, (n - 1) as nat);
        let before = stable_order_by(le, (n - 1) as nat);
        lemma_placed_holds(before, le, n - 1);
        let after = placed(before, le, n - 1);
        assert forall|i: int| 0 <= i < after.len() implies 0 <= #[trigger] after[i] < n by {
            if after[i] != n - 1 {
                let p = choose|p: int| 0 <= p < before.len() && before[p] == after[i];
            }
        }
    }
}

/// The stable order by keys holds each position once, sorted by key,
/// positions with the same key in their own order.
pub proof fn lemma_stable_order(keys: Seq<i64>)
    ensures
        is_stable_order(by_keys(keys), keys.len(), stable_order(keys)),
{
    lemma_stable_order_by(by_keys(keys), keys.len());
}

/// Stability: where no position is told apart from another, the stable
/// order is the order in which the positions stand.
pub proof fn lemma_stable_order_of_equals(le: spec_fn(int, int) -> bool, n: nat)
    requires
        forall|a: int, b: int| 0 <= a < n && 0 <= b < n ==> #[trigger] le(a, b),
    ensures
        stable_order_by(le, n) == Seq::new(n, |i: int| i),
    decreases n,
{
    if n > 0 {
        lemma_stable_order_of_equals(le, (n - 1) as nat);
        let before = stable_order_by(le, (n - 1) as nat);
        if before.len() > 0 {
            assert(before.last() == n - 2);
            assert(le(n - 2, n - 1));
        }
        assert(placed(before, le, n - 1) == before.push(n - 1));
        assert(before.push(n - 1) =~= Seq::new(n, |i: int| i));
    }
}

/// Stability: where all keys are the same, the stable order is the order in
/// which the positions stand.
pub proof fn lemma_stable_order_of_equal_keys(keys: Seq<i64>)
    requires
        forall|i: int, j: int| 0 <= i < keys.len() && 0 <= j < keys.len() ==> keys[i] == keys[j],
    ensures
        stable_order(keys) == Seq::new(keys.len(), |i: int| i),
{
    let le = by_keys(keys);
    assert forall|a: int, b: int| 0 <= a < keys.len() && 0 <= b < keys.len() implies #[trigger] le(
        a,
        b,
    ) by {
        assert(keys[a] == keys[b]);
    }
    lemma_stable_order_of_equals(le, keys.len());
}

/// The first `n` positions in the order that `le` gives them, positions that
/// it does not tell apart in their own order.
pub(crate) fn sort_order_by<F: Fn(usize, usize) -> bool>(
    n: usize,
    le: F,
    Ghost(spec_le): Ghost<spec_fn(int, int) -> bool>,
) -> (r: Vec<usize>)
    requires
        forall|a: usize, b: usize| a < n && b < n ==> call_requires(le, (a, b)),
        forall|a: usize, b: usize, r: bool|
            call_ensures(le, (a, b), r) ==> r == spec_le(a as int, b as int),
    ensures
        positions(r@) == stable_order_by(spec_le, n as nat),
        r.len() == n,
        forall|i: int| 0 <= i < r.len() ==> r@[i] < n,
{
    let mut order: Vec<usize> = Vec::new();
    let mut k: usize = 0;
    assert(positions(order@) == Seq::<int>::empty());
    while k < n
        invariant
            k <= n,
            order.len() == k,
            forall|i: int| 0 <= i < order.len() ==> order@[i] < k,
            positions(order@) == stable_order_by(spec_le, k as nat),
            forall|a: usize, b: usize| a < n && b < n ==> call_requires(le, (a, b)),
            forall|a: usize, b: usize, r: bool|
                call_ensures(le, (a, b), r) ==> r == spec_le(a as int, b as int),
        decreases n - k,
    {
        let ghost full = positions(order@);
        let mut at: usize = order.len();
        assert(full.take(at as int) == full);
        assert(full.skip(at as int) == Seq::<int>::empty());
        while at > 0 && !le(order[at - 1], k)
            invariant
                k < n,
                at <= order.len(),
                full == positions(order@),
                forall|i: int| 0 <= i < order.len() ==> order@[i] < k,
                placed(full, spec_le, k as int) == placed(full.take(at as int), spec_le, k as int)
                    + full.skip(at as int),
                forall|a: usize, b: usize| a < n && b < n ==> call_requires(le, (a, b)),
                forall|a: usize, b: usize, r: bool|
                    call_ensures(le, (a, b), r) ==> r == spec_le(a as int, b as int),
            decreases at,
        {
            proof {
                let front = full.take(at as int);
                assert(front.last() == full[at - 1]);
                assert(front.drop_last() == full.take(at - 1));
                assert(!spec_le(front.last(), k as int));
                assert(placed(front, spec_le, k as int) == placed(
                    full.take(at - 1),
                    spec_le,
                    k as int,
                ).push(full[at - 1]));
                assert(seq![full[at - 1]] + full.skip(at as int) == full.skip(at - 1));
                assert(placed(full.take(at - 1), spec_le, k as int).push(full[at - 1]) + full.skip(
                    at as int,
                ) == placed(full.take(at - 1), spec_le, k as int) + (seq![full[at - 1]]
                    + full.skip(at as int)));
            }
            at = at - 1;
        }
        proof {
            let front = full.take(at as int);
            if at > 0 {
                assert(front.last() == full[at - 1]);
                assert(spec_le(front.last(), k as int));
            }
            assert(placed(front, spec_le, k as int) == front.push(k as int));
            assert(front.push(k as int) + full.skip(at as int) == full.insert(at as int, k as int));
        }
        order.insert(at, k);
        assert(positions(order@) == full.insert(at as int, k as int));
        k = k + 1;
    }
    order
}

/// The positions of `keys` in the order of their keys, from the lowest key
/// to the highest, positions with the same key in their own order.
pub fn sort_order(keys: &Vec<i64>) -> (r: Vec<usize>)
    ensures
        positions(r@) == stable_order(keys@),
        is_stable_order(by_keys(keys@), keys@.len(), positions(r@)),
{
    let le = |a: usize, b: usize| -> (r: bool)
        requires
            a < keys.len(),
            b < keys.len(),
        ensures
            r == by_keys(keys@)(a as int, b as int),
        { keys[a] <= keys[b] };
    proof {
        lemma_stable_order(keys@);
    }
    sort_order_by(keys.len(), le, Ghost(by_keys(keys@)))
}

} // verus!
