//! What holds of every category tree.

use crate::amount::Amount;
use crate::order::{
    by_keys, gathered, lemma_reordered_gathers, lemma_stable_order, lemma_stable_order_of_equal_keys,
    reordered, stable_order,
};
use crate::record::{amounts_of, sum_amounts, RecordView};
use crate::text::{first_index, lemma_first_index_bounds, lemma_first_index_is};
use crate::tree::{empty_tree, filed, Node, Path, Tree};
use vstd::multiset::Multiset;
use vstd::prelude::*;
use vstd::seq_lib::{lemma_multiset_commutative, to_multiset_build, to_multiset_contains};

verus! {

/// The entries among `records` that belong under `path`, in their order.
pub open spec fn entries_at(records: Seq<RecordView>, path: Path) -> Seq<RecordView>
    decreases records.len(),
{
    if records.len() == 0 {
        Seq::empty()
    } else {
        let before = entries_at(records.drop_last(), path);
        if records.last().path() == path {
            before.push(records.last())
        } else {
            before
        }
    }
}

/// The tree that holds `records`, filed one after the other.
pub open spec fn built(records: Seq<RecordView>) -> Map<Path, Seq<RecordView>>
    decreases records.len(),
{
    if records.len() == 0 {
        empty_tree()
    } else {
        filed(built(records.drop_last()), records.last().path(), records.last())
    }
}

/// Whether a tree has the category at `path` after `records` were filed: the
/// root is always there, and every category on the way to an entry.
pub open spec fn reached(records: Seq<RecordView>, path: Path) -> bool {
    path.len() == 0 || exists|i: int|
        0 <= i < records.len() && path.is_prefix_of(#[trigger] records[i].path())
}

/// The insertion path property, for a whole ledger: the tree that holds
/// `records` has exactly the categories that lie on the way to an entry, and
/// each holds exactly the entries of its own path, in the order in which
/// they were filed.
pub proof fn lemma_built(records: Seq<RecordView>)
    ensures
        forall|q: Path| built(records).dom().contains(q) == reached(records, q),
        forall|q: Path| #[trigger]
            built(records).dom().contains(q) ==> built(records)[q] == entries_at(records, q),
    decreases records.len(),
{
    if records.len() == 0 {
        assert forall|q: Path| built(records).dom().contains(q) == reached(records, q) by {
            if q.len() == 0 {
                assert(q == Seq::<Seq<char>>::empty());
            }
        }
    } else {
        let before = records.drop_last();
        let last = records.last();
        lemma_built(before);
        assert forall|q: Path| built(records).dom().contains(q) == reached(records, q) by {
            if reached(before, q) && q.len() > 0 {
                let i = choose|i: int|
                    0 <= i < before.len() && q.is_prefix_of(#[trigger] before[i].path());
                assert(records[i] == before[i]);
            }
            if q.is_prefix_of(last.path()) {
                assert(records[records.len() - 1] == last);
            }
            if reached(records, q) && q.len() > 0 {
                let i = choose|i: int|
                    0 <= i < records.len() && q.is_prefix_of(#[trigger] records[i].path());
                if i < before.len() {
                    assert(before[i] == records[i]);
                }
            }
        }
        assert forall|q: Path| #[trigger] built(records).dom().contains(q) implies built(records)[q]
            == entries_at(records, q) by {
            if !built(before).dom().contains(q) {
                assert forall|i: int| 0 <= i < before.len() implies (#[trigger] before[i]).path()
                    != q by {
                    if before[i].path() == q {
                        assert(q =~= q.subrange(0, q.len() as int));
                        assert(q.is_prefix_of(before[i].path()));
                        assert(reached(before, q));
                    }
                }
                lemma_entries_at_none(before, q);
            }
        }
    }
}

/// No entry belongs under a path that is the path of none.
pub proof fn lemma_entries_at_none(records: Seq<RecordView>, path: Path)
    requires
        forall|i: int| 0 <= i < records.len() ==> (#[trigger] records[i]).path() != path,
    ensures
        entries_at(records, path) == Seq::<RecordView>::empty(),
    decreases records.len(),
{
    if records.len() > 0 {
        let before = records.drop_last();
        assert forall|i: int| 0 <= i < before.len() implies (#[trigger] before[i]).path() != path by {
            assert(before[i] == records[i]);
        }
        lemma_entries_at_none(before, path);
        assert(records[records.len() - 1].path() != path);
    }
}

/// How often an entry occurs among those that belong under `path`: as often
/// as among all, where it belongs there, and never else.
pub proof fn lemma_entries_at_count(records: Seq<RecordView>, path: Path, entry: RecordView)
    ensures
        entries_at(records, path).to_multiset().count(entry) == (if entry.path() == path {
            records.to_multiset().count(entry)
        } else {
            0
        }),
    decreases records.len(),
{
    if records.len() == 0 {
        to_multiset_contains(records, entry);
        to_multiset_contains(entries_at(records, path), entry);
    } else {
        let before = records.drop_last();
        let last = records.last();
        lemma_entries_at_count(before, path, entry);
        assert(records == before.push(last));
        to_multiset_build(before, last);
        if last.path() == path {
            to_multiset_build(entries_at(before, path), last);
        }
    }
}

/// Two well-formed trees with the same name, the same categories and the same
/// entries under each category, in whatever order, are equal.
pub proof fn lemma_same_views_are_equal(a: Node, b: Node)
    requires
        a.wf(),
        b.wf(),
        a.name() == b.name(),
        forall|q: Path| a@.dom().contains(q) == b@.dom().contains(q),
        forall|q: Path| #[trigger] a@.dom().contains(q) ==> a@[q].to_multiset() == b@[q].to_multiset(),
    ensures
        a.same_as(b),
    decreases a,
{
    let root = Seq::<Seq<char>>::empty();
    assert(a@.dom().contains(root));
    assert(a@[root] == a.own());
    assert(b@[root] == b.own());
    let names_a = a.child_names();
    let names_b = b.child_names();
    assert forall|i: int| 0 <= i < a.kids().len() implies {
        let j = first_index(b.child_names(), a.kids()[i].name());
        0 <= j < b.kids().len() && (#[trigger] a.kids()[i]).same_as(b.kids()[j])
    } by {
        let c = a.kids()[i].name();
        assert(names_a[i] == c);
        lemma_first_index_is(names_a, c, i);
        let j = first_index(names_b, c);
        lemma_first_index_bounds(names_b, c);
        let one = seq![c];
        assert(one.drop_first() == root);
        assert(one[0] == c);
        assert(a.kids()[i].at(root) == Some(a.kids()[i]));
        assert(a.at(one) == Some(a.kids()[i]));
        assert(a@.dom().contains(one));
        assert(b@.dom().contains(one));
        assert(j < b.kids().len());
        assert(names_b[j] == c);
        let ka = a.kids()[i];
        let kb = b.kids()[j];
        assert forall|q: Path|
            ka@.dom().contains(q) == kb@.dom().contains(q) && (ka@.dom().contains(q) ==> ka@[q].to_multiset()
                == kb@[q].to_multiset()) by {
            let long = one + q;
            assert(long.drop_first() == q);
            assert(long[0] == c);
            assert(a.at(long) == ka.at(q));
            assert(b.at(long) == kb.at(q));
            assert(a@.dom().contains(long) == b@.dom().contains(long));
            if a@.dom().contains(long) {
                assert(a@[long] == ka@[q]);
                assert(b@[long] == kb@[q]);
            }
        }
        lemma_same_views_are_equal(ka, kb);
    }
    assert forall|j: int| 0 <= j < b.kids().len() implies first_index(
        a.child_names(),
        #[trigger] b.child_names()[j],
    ) < a.kids().len() by {
        let c = names_b[j];
        lemma_first_index_is(names_b, c, j);
        lemma_first_index_bounds(names_a, c);
        let one = seq![c];
        assert(one.drop_first() == root);
        assert(one[0] == c);
        assert(b.kids()[j].at(root) == Some(b.kids()[j]));
        assert(b.at(one) == Some(b.kids()[j]));
        assert(b@.dom().contains(one));
        assert(a@.dom().contains(one));
    }
}

/// Equality does not depend on the order of filing: two trees that hold the
/// same entries, each as often in the one as in the other, are equal,
/// whatever the order was in which the entries were filed.
pub proof fn lemma_equal_whatever_the_order(
    a: Tree,
    b: Tree,
    first: Seq<RecordView>,
    second: Seq<RecordView>,
)
    requires
        a.wf(),
        b.wf(),
        a@ == built(first),
        b@ == built(second),
        first.to_multiset() == second.to_multiset(),
    ensures
        a.root().same_as(b.root()),
{
    lemma_built(first);
    lemma_built(second);
    assert forall|q: Path| a@.dom().contains(q) == b@.dom().contains(q) by {
        if reached(first, q) {
            lemma_reached_by_the_same(first, second, q);
        }
        if reached(second, q) {
            lemma_reached_by_the_same(second, first, q);
        }
    }
    assert forall|q: Path| #[trigger] a@.dom().contains(q) implies a@[q].to_multiset() == b@[q].to_multiset() by {
        assert forall|entry: RecordView|
            entries_at(first, q).to_multiset().count(entry) == entries_at(
                second,
                q,
            ).to_multiset().count(entry) by {
            lemma_entries_at_count(first, q, entry);
            lemma_entries_at_count(second, q, entry);
        }
        assert(entries_at(first, q).to_multiset() =~= entries_at(second, q).to_multiset());
    }
    assert(a.root().name() =~= b.root().name());
    lemma_same_views_are_equal(a.root(), b.root());
}

/// A category that is reached by the entries of one ledger is reached by
/// those of every ledger that holds the same entries.
pub proof fn lemma_reached_by_the_same(first: Seq<RecordView>, second: Seq<RecordView>, path: Path)
    requires
        first.to_multiset() == second.to_multiset(),
        reached(first, path),
    ensures
        reached(second, path),
{
    if path.len() > 0 {
        let i = choose|i: int| 0 <= i < first.len() && path.is_prefix_of(#[trigger] first[i].path());
        let entry = first[i];
        assert(first.contains(entry));
        to_multiset_contains(first, entry);
        to_multiset_contains(second, entry);
        assert(second.contains(entry));
        let j = choose|j: int| 0 <= j < second.len() && second[j] == entry;
        assert(path.is_prefix_of(second[j].path()));
    }
}

/// The sum of the amounts of a ledger without one of its entries.
pub proof fn lemma_sum_amounts_without(records: Seq<RecordView>, i: int)
    requires
        0 <= i < records.len(),
    ensures
        sum_amounts(records) == sum_amounts(records.remove(i)) + records[i].amount(),
    decreases records.len(),
{
    let shorter = records.remove(i);
    if i == records.len() - 1 {
        assert(shorter == records.drop_last());
        assert(amounts_of(records).drop_last() == amounts_of(shorter));
    } else {
        lemma_sum_amounts_without(records.drop_last(), i);
        assert(records.drop_last().remove(i) == shorter.drop_last());
        assert(amounts_of(records).drop_last() == amounts_of(records.drop_last()));
        assert(amounts_of(shorter).drop_last() == amounts_of(shorter.drop_last()));
        assert(records.drop_last()[i] == records[i]);
    }
}

/// The sum of the amounts of a ledger does not depend on the order of its
/// entries.
pub proof fn lemma_sum_amounts_in_any_order(first: Seq<RecordView>, second: Seq<RecordView>)
    requires
        first.to_multiset() == second.to_multiset(),
    ensures
        sum_amounts(first) == sum_amounts(second),
    decreases first.len(),
{
    first.to_multiset_ensures();
    second.to_multiset_ensures();
    if first.len() == 0 {
        assert(second.len() == 0);
        assert(amounts_of(first) == amounts_of(second));
    } else {
        let last = first.last();
        assert(first.contains(last)) by {
            assert(first[first.len() - 1] == last);
        }
        to_multiset_contains(first, last);
        to_multiset_contains(second, last);
        let j = choose|j: int| 0 <= j < second.len() && second[j] == last;
        lemma_sum_amounts_without(second, j);
        lemma_sum_amounts_without(first, first.len() - 1);
        assert(first.remove(first.len() - 1) == first.drop_last());
        assert(first.drop_last().to_multiset() =~= second.remove(j).to_multiset());
        lemma_sum_amounts_in_any_order(first.drop_last(), second.remove(j));
    }
}

/// Additivity of totals, whatever the shape of the tree: where the tree that
/// holds the entries of a ledger has a total, the total is the sum of the
/// amounts of the ledger.
pub proof fn lemma_total_of_a_ledger(tree: Tree, records: Seq<RecordView>)
    requires
        tree.root().valid(),
        tree.root().all_records().to_multiset() == records.to_multiset(),
    ensures
        tree.root().spec_total() matches Some(total) ==> total@ == sum_amounts(records),
{
    tree.root().lemma_total_is_sum();
    lemma_sum_amounts_in_any_order(tree.root().all_records(), records);
}

/// The total of a node depends on nothing but the node: two totals of one
/// node are the same.
pub proof fn lemma_total_twice(node: Node, first: Option<Amount>, second: Option<Amount>)
    requires
        first == node.spec_total(),
        second == node.spec_total(),
    ensures
        first == second,
{
}

/// Stability of the sorted walk: where the key is the same for all nodes,
/// the walk in the order of the keys is the walk in the nodes' own order.
pub proof fn lemma_sorted_walk_with_one_key(node: Node, key: spec_fn(Node) -> i64, depth: nat)
    requires
        forall|a: Node, b: Node| #[trigger] key(a) == #[trigger] key(b),
    ensures
        node.sorted_walk(key, depth) == node.walk(depth),
    decreases node, 1int, 0nat,
{
    lemma_sorted_walk_below_with_one_key(node, key, node.kids().len(), depth + 1);
}

/// Stability of the sorted walk through the first `n` categories below a
/// node.
pub proof fn lemma_sorted_walk_below_with_one_key(
    node: Node,
    key: spec_fn(Node) -> i64,
    n: nat,
    depth: nat,
)
    requires
        forall|a: Node, b: Node| #[trigger] key(a) == #[trigger] key(b),
    ensures
        node.sorted_walk_below(key, n, depth) == node.walk_below(n, depth),
    decreases node, 0int, n,
{
    if n == 0 || n > node.kids().len() {
    } else {
        let keys = node.child_keys(key);
        assert forall|i: int, j: int| 0 <= i < keys.len() && 0 <= j < keys.len() implies keys[i]
            == keys[j] by {
            assert(key(node.kids()[i]) == key(node.kids()[j]));
        }
        lemma_stable_order_of_equal_keys(keys);
        assert(stable_order(keys)[n - 1] == n - 1);
        lemma_sorted_walk_below_with_one_key(node, key, (n - 1) as nat, depth);
        lemma_sorted_walk_with_one_key(node.kids()[n - 1], key, depth);
    }
}

/// What the plain walks through the categories below a node visit, one part
/// for each category.
pub open spec fn visited_below(node: Node, depth: nat) -> Seq<Multiset<(Node, nat)>> {
    Seq::new(node.kids().len(), |i: int| node.kids()[i].walk(depth).to_multiset())
}

/// The sorted walk visits what the plain walk visits: each node of the tree
/// once, at its depth. Sorting changes the order only.
pub proof fn lemma_sorted_walk_visits_the_same(node: Node, key: spec_fn(Node) -> i64, depth: nat)
    ensures
        node.sorted_walk(key, depth).to_multiset() == node.walk(depth).to_multiset(),
    decreases node, 2int, 0nat,
{
    let n = node.kids().len();
    let parts = visited_below(node, depth + 1);
    let le = by_keys(node.child_keys(key));
    lemma_sorted_walk_below_visits(node, key, n, depth + 1);
    lemma_walk_below_visits(node, n, depth + 1);
    lemma_reordered_gathers(parts, le, n);
    lemma_stable_order(node.child_keys(key));
    assert(parts.take(n as int) == parts);
    assert(reordered(parts, stable_order(node.child_keys(key))).take(n as int) == reordered(
        parts,
        stable_order(node.child_keys(key)),
    ));
    lemma_multiset_commutative(seq![(node, depth)], node.sorted_walk_below(key, n, depth + 1));
    lemma_multiset_commutative(seq![(node, depth)], node.walk_below(n, depth + 1));
}

/// What the plain walk through the first `n` categories below a node visits.
pub proof fn lemma_walk_below_visits(node: Node, n: nat, depth: nat)
    requires
        n <= node.kids().len(),
    ensures
        node.walk_below(n, depth).to_multiset() == gathered(
            visited_below(node, depth).take(n as int),
        ),
    decreases n,
{
    let parts = visited_below(node, depth);
    if n == 0 {
        assert(node.walk_below(n, depth).to_multiset() =~= Multiset::empty()) by {
            node.walk_below(n, depth).to_multiset_ensures();
            assert forall|v: (Node, nat)| node.walk_below(n, depth).to_multiset().count(v)
                == 0 by {
                to_multiset_contains(node.walk_below(n, depth), v);
            }
        }
    } else {
        lemma_walk_below_visits(node, (n - 1) as nat, depth);
        lemma_multiset_commutative(
            node.walk_below((n - 1) as nat, depth),
            node.kids()[n - 1].walk(depth),
        );
        assert(parts.take(n as int).drop_last() == parts.take(n - 1));
    }
}

/// What the sorted walk through the first `n` categories below a node, in
/// the order of their keys, visits.
pub proof fn lemma_sorted_walk_below_visits(
    node: Node,
    key: spec_fn(Node) -> i64,
    n: nat,
    depth: nat,
)
    requires
        n <= node.kids().len(),
    ensures
        node.sorted_walk_below(key, n, depth).to_multiset() == gathered(
            reordered(visited_below(node, depth), stable_order(node.child_keys(key))).take(
                n as int,
            ),
        ),
    decreases node, 1int, n,
{
    let parts = visited_below(node, depth);
    let order = stable_order(node.child_keys(key));
    lemma_stable_order(node.child_keys(key));
    if n == 0 {
        assert(node.sorted_walk_below(key, n, depth).to_multiset() =~= Multiset::empty()) by {
            assert forall|v: (Node, nat)|
                node.sorted_walk_below(key, n, depth).to_multiset().count(v) == 0 by {
                to_multiset_contains(node.sorted_walk_below(key, n, depth), v);
            }
        }
    } else {
        let next = order[n - 1];
        lemma_sorted_walk_below_visits(node, key, (n - 1) as nat, depth);
        lemma_sorted_walk_visits_the_same(node.kids()[next], key, depth);
        lemma_multiset_commutative(
            node.sorted_walk_below(key, (n - 1) as nat, depth),
            node.kids()[next].sorted_walk(key, depth),
        );
        assert(reordered(parts, order).take(n as int).drop_last() == reordered(
            parts,
            order,
        ).take(n - 1));
        assert(reordered(parts, order).take(n as int).last() == parts[next]);
    }
}

} // verus!
