//! The category tree: ledger entries filed under the segments of their
//! categories.

pub mod compare_tree;
pub mod diff_tree;
pub mod laws;
pub mod total_tree;

use crate::amount::{checked_sum, lemma_checked_sum, lemma_total_value_add, values, Amount};
use crate::order::{
    by_keys, gathered, lemma_reordered_gathers, positions, reordered, sort_order, stable_order,
};
use crate::record::{
    amounts_of, record_views, same_entries, same_text, sum_amounts, Record, RecordView,
};
use crate::text::{
    first_index, lemma_first_index_bounds, lemma_first_index_is, split, split_on, views,
};
use crate::tree::laws::{lemma_walk_below_visits, visited_below};
use crate::utils::lookup::Lookup;
use vstd::multiset::Multiset;
use vstd::prelude::*;
use vstd::seq_lib::{lemma_multiset_commutative, to_multiset_build};

verus! {

/// A place in a category tree: the names of the nodes from the root down.
pub type Path = Seq<Seq<char>>;

/// One category: its entries and the categories below it.
#[derive(Debug)]
pub struct Node {
    category: String,
    children: Vec<Node>,
    records: Vec<Record>,
}

impl Node {
    /// The name of the category: one segment of a category path.
    pub closed spec fn name(self) -> Seq<char> {
        self.category@
    }

    /// The categories directly below this one, in the order in which they
    /// are visited.
    pub closed spec fn kids(self) -> Seq<Node> {
        self.children@
    }

    /// The entries filed under exactly this category, in the order in which
    /// they came.
    pub closed spec fn entries(self) -> Seq<Record> {
        self.records@
    }

    /// The views of the entries filed under exactly this category.
    pub open spec fn own(self) -> Seq<RecordView> {
        record_views(self.entries())
    }

    /// The amounts of the entries filed under exactly this category.
    pub open spec fn own_amounts(self) -> Seq<Amount> {
        Seq::new(self.entries().len(), |i: int| self.entries()[i].spec_get_amount())
    }

    /// The entries of the whole tree below and including this node: the
    /// node's own first, then those of each category below it in turn.
    pub open spec fn all_records(self) -> Seq<RecordView>
        decreases self, 1int, 0nat,
    {
        self.own() + self.records_below(self.kids().len())
    }

    /// The entries of the trees of the first `n` categories below this node.
    pub open spec fn records_below(self, n: nat) -> Seq<RecordView>
        decreases self, 0int, n,
    {
        if n == 0 || n > self.kids().len() {
            Seq::empty()
        } else {
            self.records_below((n - 1) as nat) + self.kids()[n - 1].all_records()
        }
    }

    /// The entries of the whole tree below and including this node, in the
    /// order of [`Node::all_records`].
    pub open spec fn all_entries(self) -> Seq<Record>
        decreases self, 1int, 0nat,
    {
        self.entries() + self.entries_below(self.kids().len())
    }

    /// The entries of the trees of the first `n` categories below this node.
    pub open spec fn entries_below(self, n: nat) -> Seq<Record>
        decreases self, 0int, n,
    {
        if n == 0 || n > self.kids().len() {
            Seq::empty()
        } else {
            self.entries_below((n - 1) as nat) + self.kids()[n - 1].all_entries()
        }
    }

    /// The views of all entries are all records.
    pub proof fn lemma_all_entries(self)
        ensures
            record_views(self.all_entries()) == self.all_records(),
        decreases self, 1int, 0nat,
    {
        self.lemma_entries_below(self.kids().len());
        assert(record_views(self.entries() + self.entries_below(self.kids().len()))
            == record_views(self.entries()) + record_views(
            self.entries_below(self.kids().len()),
        ));
    }

    /// The views of the entries below are the records below.
    pub proof fn lemma_entries_below(self, n: nat)
        ensures
            record_views(self.entries_below(n)) == self.records_below(n),
        decreases self, 0int, n,
    {
        if n == 0 || n > self.kids().len() {
            assert(record_views(Seq::<Record>::empty()) == Seq::<RecordView>::empty());
        } else {
            self.lemma_entries_below((n - 1) as nat);
            self.kids()[n - 1].lemma_all_entries();
            assert(record_views(
                self.entries_below((n - 1) as nat) + self.kids()[n - 1].all_entries(),
            ) == record_views(self.entries_below((n - 1) as nat)) + record_views(
                self.kids()[n - 1].all_entries(),
            ));
        }
    }

    /// Whether the amounts of all entries of the tree are within their
    /// limits. Every tree that executable code can hold is valid.
    pub open spec fn valid(self) -> bool
        decreases self,
    {
        &&& forall|i: int| 0 <= i < self.entries().len() ==> (#[trigger] self.entries()[i]).valid()
        &&& forall|i: int| 0 <= i < self.kids().len() ==> (#[trigger] self.kids()[i]).valid()
    }

    /// What [`Node::total`] returns: the totals of the categories below
    /// added up from the left, then the sum of the node's own amounts added
    /// to that, as long as every sum on the way is exact.
    pub open spec fn spec_total(self) -> Option<Amount>
        decreases self, 1int, 0nat,
    {
        match (self.total_below(self.kids().len()), checked_sum(self.own_amounts())) {
            (Some(below), Some(own)) => below.spec_checked_add(own),
            _ => None,
        }
    }

    /// The totals of the first `n` categories below this node, added up from
    /// the left.
    pub open spec fn total_below(self, n: nat) -> Option<Amount>
        decreases self, 0int, n,
    {
        if n == 0 || n > self.kids().len() {
            Some(Amount::spec_zero())
        } else {
            match (self.total_below((n - 1) as nat), self.kids()[n - 1].spec_total()) {
                (Some(before), Some(next)) => before.spec_checked_add(next),
                _ => None,
            }
        }
    }

    /// The names of the categories directly below this one.
    pub open spec fn child_names(self) -> Seq<Seq<char>> {
        Seq::new(self.kids().len(), |i: int| self.kids()[i].name())
    }

    /// No two categories below one category have the same name, anywhere in
    /// the tree.
    pub open spec fn wf(self) -> bool
        decreases self,
    {
        &&& self.child_names().no_duplicates()
        &&& forall|i: int| 0 <= i < self.kids().len() ==> (#[trigger] self.kids()[i]).wf()
    }

    /// Whether two nodes are equal as trees of categories: they have the
    /// same name and the same entries, in whatever order; each category
    /// below the one has an equal of its name below the other; and the
    /// other has no category below it that the one has not. The order of
    /// the categories does not count.
    pub open spec fn same_as(self, other: Node) -> bool
        decreases self,
    {
        &&& self.name() == other.name()
        &&& self.own().to_multiset() == other.own().to_multiset()
        &&& forall|i: int|
            0 <= i < self.kids().len() ==> {
                let j = first_index(other.child_names(), self.kids()[i].name());
                0 <= j < other.kids().len() && (#[trigger] self.kids()[i]).same_as(
                    other.kids()[j],
                )
            }
        &&& forall|j: int|
            0 <= j < other.kids().len() ==> first_index(
                self.child_names(),
                #[trigger] other.child_names()[j],
            ) < self.kids().len()
    }

    /// The depth-first walk through the tree below and including this node,
    /// which is at `depth`: the node itself, then the walk through each
    /// category below it in turn, one level deeper.
    pub open spec fn walk(self, depth: nat) -> Seq<(Node, nat)>
        decreases self, 1int, 0nat,
    {
        seq![(self, depth)] + self.walk_below(self.kids().len(), depth + 1)
    }

    /// The walks through the first `n` categories below this node, which
    /// are at `depth`.
    pub open spec fn walk_below(self, n: nat, depth: nat) -> Seq<(Node, nat)>
        decreases self, 0int, n,
    {
        if n == 0 || n > self.kids().len() {
            Seq::empty()
        } else {
            self.walk_below((n - 1) as nat, depth) + self.kids()[n - 1].walk(depth)
        }
    }

    /// The keys of the categories directly below this one.
    pub open spec fn child_keys(self, key: spec_fn(Node) -> i64) -> Seq<i64> {
        Seq::new(self.kids().len(), |i: int| key(self.kids()[i]))
    }

    /// The depth-first walk through the tree below and including this node,
    /// which is at `depth`, where the categories below each node are taken
    /// in the order of their keys, categories with the same key in their
    /// own order.
    pub open spec fn sorted_walk(self, key: spec_fn(Node) -> i64, depth: nat) -> Seq<(Node, nat)>
        decreases self, 1int, 0nat,
    {
        seq![(self, depth)] + self.sorted_walk_below(key, self.kids().len(), depth + 1)
    }

    /// The walks through the first `n` categories below this node in the
    /// order of their keys; the categories are at `depth`.
    pub open spec fn sorted_walk_below(self, key: spec_fn(Node) -> i64, n: nat, depth: nat) -> Seq<
        (Node, nat),
    >
        decreases self, 0int, n,
    {
        if n == 0 || n > self.kids().len() {
            Seq::empty()
        } else {
            let next = stable_order(self.child_keys(key))[n - 1];
            self.sorted_walk_below(key, (n - 1) as nat, depth) + (if 0 <= next
                < self.kids().len() {
                self.kids()[next].sorted_walk(key, depth)
            } else {
                Seq::empty()
            })
        }
    }

    /// The sum of the entries of two sequences that are joined is the sum of
    /// their sums.
    pub proof fn lemma_sum_amounts_add(a: Seq<RecordView>, b: Seq<RecordView>)
        ensures
            sum_amounts(a + b) == sum_amounts(a) + sum_amounts(b),
    {
        assert(amounts_of(a + b) == amounts_of(a) + amounts_of(b));
        lemma_total_value_add(amounts_of(a), amounts_of(b));
    }

    /// Additivity of totals: where a node has a total, the total is the sum
    /// of the amounts of all entries of its tree, however the entries are
    /// spread over the categories.
    pub proof fn lemma_total_is_sum(self)
        requires
            self.valid(),
        ensures
            self.spec_total() matches Some(t) ==> t.valid() && t@ == sum_amounts(
                self.all_records(),
            ),
        decreases self, 1int, 0nat,
    {
        self.lemma_total_below(self.kids().len());
        lemma_checked_sum(self.own_amounts());
        assert(values(self.own_amounts()) == amounts_of(self.own())) by {
            assert forall|i: int| 0 <= i < self.entries().len() implies values(
                self.own_amounts(),
            )[i] == amounts_of(self.own())[i] by {
                self.entries()[i].lemma_amount();
            }
        }
        Self::lemma_sum_amounts_add(self.own(), self.records_below(self.kids().len()));
        match (self.total_below(self.kids().len()), checked_sum(self.own_amounts())) {
            (Some(below), Some(own)) => {
                Amount::lemma_checked_add(below, own);
            },
            _ => {},
        }
    }

    /// Additivity of the totals of the first `n` categories below a node.
    pub proof fn lemma_total_below(self, n: nat)
        requires
            self.valid(),
        ensures
            self.total_below(n) matches Some(t) ==> t.valid() && t@ == sum_amounts(
                self.records_below(n),
            ),
        decreases self, 0int, n,
    {
        if n == 0 || n > self.kids().len() {
            Amount::lemma_zero();
            assert(amounts_of(Seq::<RecordView>::empty()) == Seq::<int>::empty());
        } else {
            self.lemma_total_below((n - 1) as nat);
            self.kids()[n - 1].lemma_total_is_sum();
            Self::lemma_sum_amounts_add(
                self.records_below((n - 1) as nat),
                self.kids()[n - 1].all_records(),
            );
            match (self.total_below((n - 1) as nat), self.kids()[n - 1].spec_total()) {
                (Some(before), Some(next)) => {
                    Amount::lemma_checked_add(before, next);
                },
                _ => {},
            }
        }
    }

    /// The node that `path` leads to from this one: each segment names the
    /// category to go down to.
    pub open spec fn at(self, path: Path) -> Option<Node>
        decreases path.len(),
    {
        if path.len() == 0 {
            Some(self)
        } else {
            let i = first_index(self.child_names(), path[0]);
            if 0 <= i < self.kids().len() {
                self.kids()[i].at(path.drop_first())
            } else {
                None
            }
        }
    }

    /// A category without entries and without categories below it.
    pub fn new(category: String) -> (r: Node)
        ensures
            r.name() == category@,
            r.kids().len() == 0,
            r.own().len() == 0,
    {
        Node { category, children: Vec::new(), records: Vec::new() }
    }

    /// The name of the category.
    pub fn catogory(&self) -> (r: &String)
        ensures
            r@ == self.name(),
    {
        &self.category
    }

    /// The entries filed under exactly this category.
    pub fn get_records(&self) -> (r: &Vec<Record>)
        ensures
            r@ == self.entries(),
    {
        &self.records
    }

    /// The total of the tree below and including this node: the amounts of
    /// all its entries added up. Nothing is returned where a sum on the way
    /// is not exact.
    pub fn total(&self) -> (r: Option<Amount>)
        ensures
            r == self.spec_total(),
            r matches Some(t) ==> t@ == sum_amounts(self.all_records()),
            self.valid(),
        decreases self,
    {
        let mut below: Option<Amount> = Some(Amount::zero());
        let n = self.children.len();
        let mut i: usize = 0;
        while i < n
            invariant
                n == self.kids().len(),
                i <= n,
                below == self.total_below(i as nat),
                forall|j: int| 0 <= j < i ==> (#[trigger] self.kids()[j]).valid(),
            decreases n - i,
        {
            let next = self.children[i].total();
            below =
            match (below, next) {
                (Some(before), Some(next)) => before.checked_add(&next),
                _ => None,
            };
            i = i + 1;
        }
        let mut own: Option<Amount> = Some(Amount::zero());
        let m = self.records.len();
        let mut k: usize = 0;
        assert(self.own_amounts().take(0) == Seq::<Amount>::empty());
        while k < m
            invariant
                m == self.entries().len(),
                k <= m,
                own == checked_sum(self.own_amounts().take(k as int)),
                forall|j: int| 0 <= j < k ==> (#[trigger] self.entries()[j]).valid(),
            decreases m - k,
        {
            proof {
                assert(self.own_amounts().take(k + 1).drop_last() == self.own_amounts().take(
                    k as int,
                ));
            }
            let amount = self.records[k].get_amount();
            own =
            match own {
                Some(before) => before.checked_add(&amount),
                None => None,
            };
            k = k + 1;
        }
        proof {
            assert(self.own_amounts().take(m as int) == self.own_amounts());
            self.lemma_total_is_sum();
        }
        match (below, own) {
            (Some(below), Some(own)) => below.checked_add(&own),
            _ => None,
        }
    }

    /// The categories directly below this one, in the order in which they
    /// are visited.
    pub fn children(&self) -> (r: &Vec<Node>)
        ensures
            r@ == self.kids(),
    {
        &self.children
    }

    /// The category of that name directly below this one.
    pub fn child(&self, name: &String) -> (r: Option<&Node>)
        ensures
            match r {
                Some(c) => self.at(seq![name@]) == Some(*c),
                None => self.at(seq![name@]) is None,
            },
    {
        let ghost way = seq![name@];
        proof {
            assert(way.len() == 1 && way[0] == name@);
            assert(way.drop_first().len() == 0);
        }
        match self.find_child(name) {
            Some(i) => {
                assert(self.kids()[i as int].at(way.drop_first()) == Some(self.kids()[i as int]));
                Some(&self.children[i])
            },
            None => None,
        }
    }

    /// Adds to `out` the depth-first walk through the tree below and
    /// including this node, which is at `depth`.
    fn walk_into<'a>(&'a self, depth: usize, out: &mut Vec<(&'a Node, usize)>)
        requires
            depth <= old(out).len(),
        ensures
            visits(final(out)@) == visits(old(out)@) + self.walk(depth as nat),
        decreases self,
    {
        let ghost start = visits(out@);
        out.push((self, depth));
        proof {
            assert(visits(out@) == start + seq![(*self, depth as nat)]);
        }
        let n = self.children.len();
        let mut i: usize = 0;
        while i < n
            invariant
                n == self.kids().len(),
                i <= n,
                depth < out.len(),
                visits(out@) == start + seq![(*self, depth as nat)] + self.walk_below(
                    i as nat,
                    (depth + 1) as nat,
                ),
            decreases n - i,
        {
            let ghost before = visits(out@);
            self.children[i].walk_into(depth + 1, out);
            proof {
                assert(visits(out@).len() == before.len() + self.kids()[i as int].walk(
                    (depth + 1) as nat,
                ).len());
                assert(visits(out@) == start + seq![(*self, depth as nat)] + self.walk_below(
                    (i + 1) as nat,
                    (depth + 1) as nat,
                ));
            }
            i = i + 1;
        }
        proof {
            assert(visits(out@) == start + self.walk(depth as nat));
        }
    }

    /// Adds to `out` the depth-first walk through the categories below this
    /// node, which are at `depth`, those below each node in the order of
    /// their keys.
    fn sorted_walk_below_into<'a, C: Fn(&Node) -> i64>(
        &'a self,
        key: &C,
        depth: usize,
        out: &mut Vec<(&'a Node, usize)>,
    )
        requires
            depth <= old(out).len(),
            forall|n: &Node| call_requires(*key, (n,)),
        ensures
            old(out).len() <= final(out).len(),
            forall|f: spec_fn(Node) -> i64| #[trigger]
                computes(*key, f) ==> visits(final(out)@) == visits(old(out)@)
                    + self.sorted_walk_below(f, self.kids().len(), depth as nat),
            visits(final(out)@).to_multiset() == visits(old(out)@).to_multiset().add(
                self.walk_below(self.kids().len(), depth as nat).to_multiset(),
            ),
        decreases self, 0int,
    {
        let ghost start = visits(out@);
        let ghost parts = visited_below(*self, depth as nat);
        let n = self.children.len();
        let mut keys: Vec<i64> = Vec::new();
        let mut i: usize = 0;
        while i < n
            invariant
                n == self.kids().len(),
                i <= n,
                keys.len() == i,
                forall|n: &Node| call_requires(*key, (n,)),
                forall|j: int|
                    0 <= j < i ==> call_ensures(*key, (&self.kids()[j],), #[trigger] keys@[j]),
            decreases n - i,
        {
            let k = key(&self.children[i]);
            keys.push(k);
            i = i + 1;
        }
        proof {
            assert forall|f: spec_fn(Node) -> i64| #[trigger] computes(*key, f) implies keys@
                == self.child_keys(f) by {
                assert forall|j: int| 0 <= j < n implies keys@[j] == self.child_keys(f)[j] by {
                    assert(call_ensures(*key, (&self.kids()[j],), keys@[j]));
                }
                assert(keys@ =~= self.child_keys(f));
            }
        }
        let order = sort_order(&keys);
        let mut j: usize = 0;
        assert(visits(out@) == start + Seq::<(Node, nat)>::empty());
        proof {
            assert(reordered(parts, positions(order@)).take(0) == Seq::<
                Multiset<(Node, nat)>,
            >::empty());
            assert(start.to_multiset().add(Multiset::empty()) =~= start.to_multiset());
        }
        while j < n
            invariant
                n == self.kids().len(),
                n == order.len(),
                j <= n,
                depth <= out.len(),
                start.len() <= out.len(),
                positions(order@) == stable_order(keys@),
                parts == visited_below(*self, depth as nat),
                visits(out@).to_multiset() == start.to_multiset().add(
                    gathered(reordered(parts, positions(order@)).take(j as int)),
                ),
                forall|f: spec_fn(Node) -> i64| #[trigger]
                    computes(*key, f) ==> keys@ == self.child_keys(f),
                forall|i: int| 0 <= i < order.len() ==> 0 <= #[trigger] positions(order@)[i] < n,
                forall|n: &Node| call_requires(*key, (n,)),
                forall|f: spec_fn(Node) -> i64| #[trigger]
                    computes(*key, f) ==> visits(out@) == start + self.sorted_walk_below(
                        f,
                        j as nat,
                        depth as nat,
                    ),
            decreases n - j,
        {
            let next = order[j];
            assert(positions(order@)[j as int] == next);
            let ghost before = visits(out@);
            self.children[next].sorted_walk_into(key, depth, out);
            proof {
                assert forall|f: spec_fn(Node) -> i64| #[trigger] computes(*key, f) implies visits(
                    out@,
                ) == start + self.sorted_walk_below(f, (j + 1) as nat, depth as nat) by {
                    assert(before == start + self.sorted_walk_below(f, j as nat, depth as nat));
                    assert(visits(out@) == before + self.kids()[next as int].sorted_walk(
                        f,
                        depth as nat,
                    ));
                    assert(stable_order(self.child_keys(f))[j as int] == next);
                }
                let turned = reordered(parts, positions(order@));
                assert(turned.take(j + 1).drop_last() == turned.take(j as int));
                assert(turned.take(j + 1).last() == parts[next as int]);
                assert(start.to_multiset().add(gathered(turned.take(j as int))).add(
                    parts[next as int],
                ) =~= start.to_multiset().add(
                    gathered(turned.take(j as int)).add(parts[next as int]),
                ));
            }
            j = j + 1;
        }
        proof {
            let turned = reordered(parts, positions(order@));
            assert(turned.take(n as int) == turned);
            assert(parts.take(n as int) == parts);
            lemma_reordered_gathers(parts, by_keys(keys@), n as nat);
            lemma_walk_below_visits(*self, n as nat, depth as nat);
        }
    }

    /// Adds to `out` the depth-first walk through the tree below and
    /// including this node, which is at `depth`, the categories below each
    /// node in the order of their keys.
    fn sorted_walk_into<'a, C: Fn(&Node) -> i64>(
        &'a self,
        key: &C,
        depth: usize,
        out: &mut Vec<(&'a Node, usize)>,
    )
        requires
            depth <= old(out).len(),
            forall|n: &Node| call_requires(*key, (n,)),
        ensures
            old(out).len() <= final(out).len(),
            forall|f: spec_fn(Node) -> i64| #[trigger]
                computes(*key, f) ==> visits(final(out)@) == visits(old(out)@) + self.sorted_walk(
                    f,
                    depth as nat,
                ),
            visits(final(out)@).to_multiset() == visits(old(out)@).to_multiset().add(
                self.walk(depth as nat).to_multiset(),
            ),
        decreases self, 1int,
    {
        let ghost start = visits(out@);
        out.push((self, depth));
        let ghost pushed = visits(out@);
        assert(pushed == start + seq![(*self, depth as nat)]);
        proof {
            let here = seq![(*self, depth as nat)];
            let below = self.walk_below(self.kids().len(), (depth + 1) as nat);
            lemma_multiset_commutative(start, here);
            lemma_multiset_commutative(here, below);
            assert(start.to_multiset().add(here.to_multiset()).add(below.to_multiset())
                =~= start.to_multiset().add(here.to_multiset().add(below.to_multiset())));
        }
        assert(depth < out.len());
        self.sorted_walk_below_into(key, depth + 1, out);
        proof {
            assert forall|f: spec_fn(Node) -> i64| #[trigger] computes(*key, f) implies visits(
                out@,
            ) == start + self.sorted_walk(f, depth as nat) by {
                assert(visits(out@) == pushed + self.sorted_walk_below(
                    f,
                    self.kids().len(),
                    (depth + 1) as nat,
                ));
            }
        }
    }

    /// Adds to `out` the entries of the whole tree below and including this
    /// node.
    fn entries_into<'a>(&'a self, out: &mut Vec<&'a Record>)
        ensures
            pointed(final(out)@) == pointed(old(out)@) + self.all_entries(),
        decreases self,
    {
        let ghost start = pointed(out@);
        let m = self.records.len();
        let mut k: usize = 0;
        assert(start + self.entries().take(0) == start);
        while k < m
            invariant
                m == self.entries().len(),
                k <= m,
                pointed(out@) == start + self.entries().take(k as int),
            decreases m - k,
        {
            let ghost before = pointed(out@);
            out.push(&self.records[k]);
            proof {
                assert(pointed(out@) == before.push(self.entries()[k as int]));
                assert(self.entries().take(k + 1) == self.entries().take(k as int).push(
                    self.entries()[k as int],
                ));
                assert(pointed(out@) == start + self.entries().take(k + 1));
            }
            k = k + 1;
        }
        assert(self.entries().take(m as int) == self.entries());
        let n = self.children.len();
        let mut i: usize = 0;
        assert(pointed(out@) == start + self.entries() + self.entries_below(0));
        while i < n
            invariant
                n == self.kids().len(),
                i <= n,
                pointed(out@) == start + self.entries() + self.entries_below(i as nat),
            decreases n - i,
        {
            self.children[i].entries_into(out);
            proof {
                assert(pointed(out@) == start + self.entries() + self.entries_below(
                    (i + 1) as nat,
                ));
            }
            i = i + 1;
        }
        assert(pointed(out@) == start + self.all_entries());
    }

    /// The entries of the whole tree below and including this node: the
    /// node's own first, then those of each category below it in turn.
    pub fn records(&self) -> (r: Vec<&Record>)
        ensures
            pointed(r@) == self.all_entries(),
            record_views(pointed(r@)) == self.all_records(),
    {
        let mut found: Vec<&Record> = Vec::new();
        assert(pointed(found@) == Seq::<Record>::empty());
        self.entries_into(&mut found);
        proof {
            self.lemma_all_entries();
        }
        found
    }

    /// Each node of the tree below and including this one, in the order of
    /// the depth-first walk.
    pub fn for_each(&self) -> (r: Vec<&Node>)
        ensures
            r@.len() == self.walk(0).len(),
            forall|i: int| 0 <= i < r@.len() ==> *r@[i] == (#[trigger] self.walk(0)[i]).0,
    {
        let mut visited: Vec<(&Node, usize)> = Vec::new();
        self.walk_into(0, &mut visited);
        assert(visits(visited@) == self.walk(0));
        let mut nodes: Vec<&Node> = Vec::new();
        let n = visited.len();
        let mut i: usize = 0;
        while i < n
            invariant
                n == visited.len(),
                i <= n,
                nodes.len() == i,
                visits(visited@) == self.walk(0),
                forall|j: int| 0 <= j < i ==> *nodes@[j] == (#[trigger] self.walk(0)[j]).0,
            decreases n - i,
        {
            proof {
                assert(visits(visited@)[i as int] == self.walk(0)[i as int]);
            }
            nodes.push(visited[i].0);
            i = i + 1;
        }
        nodes
    }

    /// Whether the two nodes are equal as trees of categories.
    pub fn equals(&self, other: &Node) -> (r: bool)
        ensures
            r == self.same_as(*other),
        decreases self,
    {
        if !same_text(&self.category, &other.category) {
            return false;
        }
        if !same_entries(&self.records, &other.records) {
            return false;
        }
        let n = self.children.len();
        let mut i: usize = 0;
        while i < n
            invariant
                n == self.kids().len(),
                i <= n,
                forall|k: int|
                    0 <= k < i ==> {
                        let j = first_index(other.child_names(), self.kids()[k].name());
                        0 <= j < other.kids().len() && (#[trigger] self.kids()[k]).same_as(
                            other.kids()[j],
                        )
                    },
            decreases n - i,
        {
            match other.find_child(&self.children[i].category) {
                Some(j) => {
                    if !self.children[i].equals(&other.children[j]) {
                        return false;
                    }
                },
                None => {
                    return false;
                },
            }
            i = i + 1;
        }
        let m = other.children.len();
        let mut j: usize = 0;
        while j < m
            invariant
                m == other.kids().len(),
                j <= m,
                forall|k: int|
                    0 <= k < j ==> first_index(
                        self.child_names(),
                        #[trigger] other.child_names()[k],
                    ) < self.kids().len(),
            decreases m - j,
        {
            match self.find_child(&other.children[j].category) {
                Some(_) => {},
                None => {
                    assert(other.child_names()[j as int] == other.kids()[j as int].name());
                    return false;
                },
            }
            assert(other.child_names()[j as int] == other.kids()[j as int].name());
            j = j + 1;
        }
        true
    }

    /// The position of the category of that name among those directly below
    /// this one.
    pub fn find_child(&self, name: &String) -> (r: Option<usize>)
        ensures
            match r {
                Some(i) => i == first_index(self.child_names(), name@) && i < self.kids().len(),
                None => first_index(self.child_names(), name@) == self.kids().len(),
            },
    {
        let n = self.children.len();
        let mut i: usize = 0;
        while i < n
            invariant
                n == self.kids().len(),
                i <= n,
                self.child_names().len() == n,
                forall|j: int| 0 <= j < i ==> self.child_names()[j] != name@,
            decreases n - i,
        {
            if same_text(&self.children[i].category, name) {
                proof {
                    assert(self.child_names()[i as int] == name@);
                    lemma_first_index_is(self.child_names(), name@, i as int);
                }
                return Some(i);
            }
            i = i + 1;
        }
        proof {
            lemma_first_index_is(self.child_names(), name@, n as int);
        }
        None
    }

    /// Files `record` under the category that the segments of `path` from
    /// `depth` on lead to, making the categories on the way that are not
    /// there yet.
    fn insert_at(&mut self, record: Record, path: &Vec<String>, depth: usize)
        requires
            depth <= path.len(),
        ensures
            final(self).name() == old(self).name(),
            final(self)@ == filed(old(self)@, views(path@).skip(depth as int), record@),
            final(self).all_records().to_multiset() == old(self).all_records().to_multiset().insert(
                record@,
            ),
            old(self).wf() ==> final(self).wf(),
        decreases path.len() - depth,
    {
        let ghost before = *self;
        let ghost way = views(path@).skip(depth as int);
        if depth == path.len() {
            self.records.push(record);
            proof {
                assert(self.own() == before.own().push(record@));
                Self::lemma_filed_here(before, *self, record@);
                assert(way == Seq::<Seq<char>>::empty());
            }
        } else {
            let found = self.find_child(&path[depth]);
            let i = match found {
                Some(i) => i,
                None => {
                    self.children.push(Node::new(path[depth].clone()));
                    self.children.len() - 1
                },
            };
            let ghost base = self.children@[i as int];
            let ghost middle = *self;
            self.children[i].insert_at(record, path, depth + 1);
            proof {
                assert(way[0] == path@[depth as int]@);
                assert(way.drop_first() == views(path@).skip(depth + 1));
                lemma_first_index_bounds(before.child_names(), way[0]);
                if found is Some {
                    assert(before.child_names()[i as int] == way[0]);
                    assert(middle.kids() == before.kids());
                } else {
                    assert(middle.kids() == before.kids().push(base));
                }
                assert(self.kids() == middle.kids().update(i as int, self.kids()[i as int]));
                Self::lemma_filed_below(before, *self, base, i as int, way, record@);
            }
        }
    }

    /// The entries below two nodes with the same categories below them are
    /// the same.
    proof fn lemma_records_below_same(before: Node, after: Node, n: nat)
        requires
            after.kids() == before.kids(),
        ensures
            after.records_below(n) == before.records_below(n),
        decreases n,
    {
        if n == 0 || n > before.kids().len() {
        } else {
            Self::lemma_records_below_same(before, after, (n - 1) as nat);
        }
    }

    /// The entries below a node after an entry was filed below its child at
    /// `i`: up to that child they are the same, from it on there is one
    /// more.
    proof fn lemma_records_below_filed(
        before: Node,
        after: Node,
        base: Node,
        i: int,
        record: RecordView,
        n: nat,
    )
        requires
            0 <= i <= before.kids().len(),
            n <= after.kids().len(),
            i < before.kids().len() ==> base == before.kids()[i] && after.kids().len()
                == before.kids().len(),
            i == before.kids().len() ==> base.kids().len() == 0 && base.own().len() == 0
                && after.kids().len() == before.kids().len() + 1,
            forall|j: int| 0 <= j < before.kids().len() && j != i ==> after.kids()[j] == before.kids()[j],
            after.kids()[i].all_records().to_multiset() == base.all_records().to_multiset().insert(
                record,
            ),
        ensures
            n <= i ==> after.records_below(n) == before.records_below(n),
            n > i ==> after.records_below(n).to_multiset() == before.records_below(
                if n <= before.kids().len() {
                    n
                } else {
                    before.kids().len()
                },
            ).to_multiset().insert(record),
        decreases n,
    {
        if n == 0 {
        } else {
            Self::lemma_records_below_filed(before, after, base, i, record, (n - 1) as nat);
            let head_after = after.records_below((n - 1) as nat);
            let last_after = after.kids()[n - 1].all_records();
            lemma_multiset_commutative(head_after, last_after);
            if n - 1 < i {
                assert(after.kids()[n - 1] == before.kids()[n - 1]);
            } else if n - 1 == i {
                let head = before.records_below((n - 1) as nat);
                assert(head_after == head);
                if i < before.kids().len() {
                    lemma_multiset_commutative(head, base.all_records());
                    assert(head.to_multiset().add(base.all_records().to_multiset().insert(record))
                        =~= head.to_multiset().add(base.all_records().to_multiset()).insert(
                        record,
                    ));
                } else {
                    assert(base.all_records() =~= Seq::<RecordView>::empty());
                    let none = Seq::<RecordView>::empty();
                    lemma_multiset_commutative(head, none);
                    assert(head + none == head);
                    assert(head.to_multiset().add(none.to_multiset().insert(record))
                        =~= head.to_multiset().add(none.to_multiset()).insert(record));
                }
            } else {
                let head = before.records_below((n - 1) as nat);
                let last = before.kids()[n - 1].all_records();
                assert(after.kids()[n - 1] == before.kids()[n - 1]);
                lemma_multiset_commutative(head, last);
                assert(head.to_multiset().insert(record).add(last.to_multiset())
                    =~= head.to_multiset().add(last.to_multiset()).insert(record));
            }
        }
    }

    /// Filing an entry under a node itself adds it to the node's own entries
    /// and changes nothing below.
    proof fn lemma_filed_here(before: Node, after: Node, record: RecordView)
        requires
            after.name() == before.name(),
            after.kids() == before.kids(),
            after.own() == before.own().push(record),
        ensures
            after@ == filed(before@, Seq::empty(), record),
            after.all_records().to_multiset() == before.all_records().to_multiset().insert(record),
            before.wf() ==> after.wf(),
    {
        assert(after.all_records().to_multiset() == before.all_records().to_multiset().insert(
            record,
        )) by {
            let n = before.kids().len();
            Self::lemma_records_below_same(before, after, n);
            let below = before.records_below(n);
            lemma_multiset_commutative(before.own(), below);
            lemma_multiset_commutative(after.own(), below);
            to_multiset_build(before.own(), record);
            assert(before.own().to_multiset().insert(record).add(below.to_multiset())
                =~= before.own().to_multiset().add(below.to_multiset()).insert(record));
        }
        let empty = Seq::<Seq<char>>::empty();
        let target = filed(before@, empty, record);
        assert(after.child_names() == before.child_names());
        assert forall|q: Path| after@.dom().contains(q) == target.dom().contains(q) by {
            if q.len() == 0 {
                assert(q.is_prefix_of(empty));
            } else {
                assert(!q.is_prefix_of(empty));
            }
        }
        assert forall|q: Path| #[trigger] after@.dom().contains(q) implies after@[q] == target[q] by {
            if q.len() == 0 {
                assert(q == empty);
            }
        }
        assert(after@ =~= target);
    }

    /// Filing an entry below the child at `i`, which `way` leads to first,
    /// files it in the tree of this node. The child is new where `i` is
    /// past the children that were there before.
    proof fn lemma_filed_below(
        before: Node,
        after: Node,
        base: Node,
        i: int,
        way: Path,
        record: RecordView,
    )
        requires
            way.len() > 0,
            after.name() == before.name(),
            after.own() == before.own(),
            0 <= i <= before.kids().len(),
            i == first_index(before.child_names(), way[0]),
            i < before.kids().len() ==> base == before.kids()[i] && after.kids().len()
                == before.kids().len(),
            i == before.kids().len() ==> base.name() == way[0] && base.kids().len() == 0
                && base.own().len() == 0 && after.kids().len() == before.kids().len() + 1,
            forall|j: int| 0 <= j < before.kids().len() && j != i ==> after.kids()[j] == before.kids()[j],
            after.kids()[i].name() == base.name(),
            after.kids()[i]@ == filed(base@, way.drop_first(), record),
            after.kids()[i].all_records().to_multiset() == base.all_records().to_multiset().insert(
                record,
            ),
            base.wf() ==> after.kids()[i].wf(),
        ensures
            after@ == filed(before@, way, record),
            after.all_records().to_multiset() == before.all_records().to_multiset().insert(record),
            before.wf() ==> after.wf(),
    {
        assert(after.all_records().to_multiset() == before.all_records().to_multiset().insert(
            record,
        )) by {
            let n = before.kids().len();
            Self::lemma_records_below_filed(before, after, base, i, record, after.kids().len());
            let below = before.records_below(n);
            let below_after = after.records_below(after.kids().len());
            lemma_multiset_commutative(before.own(), below);
            lemma_multiset_commutative(after.own(), below_after);
            assert(before.own().to_multiset().add(below.to_multiset().insert(record))
                =~= before.own().to_multiset().add(below.to_multiset()).insert(record));
        }
        let target = filed(before@, way, record);
        let names_before = before.child_names();
        let names_after = after.child_names();
        let child = after.kids()[i];
        lemma_first_index_bounds(names_before, way[0]);
        assert(base.name() == way[0]);
        assert(names_after[i] == way[0]);
        assert forall|j: int| 0 <= j < names_before.len() && j != i implies names_after[j]
            == names_before[j] by {
            assert(after.kids()[j] == before.kids()[j]);
        }
        assert forall|j: int| 0 <= j < i implies names_after[j] != way[0] by {
            assert(names_after[j] == names_before[j]);
        }
        lemma_first_index_is(names_after, way[0], i);
        let agree = |q: Path|
            after@.dom().contains(q) == target.dom().contains(q) && (after@.dom().contains(q)
                ==> after@[q] == target[q]);
        assert forall|q: Path| #[trigger] agree(q) by {
            if q.len() == 0 {
                assert(q.is_prefix_of(way));
                assert(q != way);
            } else {
                let rest = q.drop_first();
                let below = way.drop_first();
                if q[0] == way[0] {
                    assert(after.at(q) == child.at(rest));
                    assert(q.is_prefix_of(way) == rest.is_prefix_of(below)) by {
                        if q.is_prefix_of(way) {
                            assert(rest =~= below.subrange(0, rest.len() as int));
                        }
                        if rest.is_prefix_of(below) {
                            let head = way.subrange(0, q.len() as int);
                            assert forall|j: int| 0 <= j < q.len() implies q[j] == head[j] by {
                                if j > 0 {
                                    assert(q[j] == rest[j - 1]);
                                    assert(rest[j - 1] == below.subrange(0, rest.len() as int)[j - 1]);
                                }
                            }
                            assert(q =~= head);
                        }
                    }
                    assert((q == way) == (rest == below)) by {
                        if rest == below {
                            assert(q =~= way);
                        }
                    }
                    assert(child@.dom().contains(rest) == (child.at(rest) is Some));
                    assert(base@.dom().contains(rest) == (base.at(rest) is Some));
                    if i < before.kids().len() {
                        assert(before.at(q) == base.at(rest));
                    } else {
                        assert(before.at(q) is None);
                        if rest.len() > 0 {
                            assert(base.child_names().len() == 0);
                            assert(base.at(rest) is None);
                        } else {
                            assert(rest.is_prefix_of(below));
                        }
                    }
                    assert(after@.dom().contains(q) == target.dom().contains(q));
                    if after@.dom().contains(q) {
                        let step = filed(base@, below, record);
                        assert(step.dom().contains(rest));
                        assert(after@[q] == child@[rest]);
                        assert(child@[rest] == step[rest]);
                        if i < before.kids().len() {
                            assert(before@.dom().contains(q) == base@.dom().contains(rest));
                            if before@.dom().contains(q) {
                                assert(before@[q] == base@[rest]);
                            }
                        } else {
                            assert(!before@.dom().contains(q));
                            if base@.dom().contains(rest) {
                                assert(rest.len() == 0);
                                assert(base.at(rest) == Some(base));
                                assert(base@[rest] =~= Seq::<RecordView>::empty());
                            }
                        }
                        assert(after@[q] == target[q]);
                    }
                } else {
                    assert(!q.is_prefix_of(way)) by {
                        if q.is_prefix_of(way) {
                            assert(q[0] == way.subrange(0, q.len() as int)[0]);
                        }
                    }
                    let k = first_index(names_before, q[0]);
                    lemma_first_index_bounds(names_before, q[0]);
                    if k < names_before.len() {
                        assert(k != i);
                        assert forall|j: int| 0 <= j < k implies names_after[j] != q[0] by {
                            if j != i {
                                assert(names_after[j] == names_before[j]);
                            }
                        }
                        assert(names_after[k] == names_before[k]);
                        lemma_first_index_is(names_after, q[0], k);
                        assert(after.kids()[k] == before.kids()[k]);
                    } else {
                        assert forall|j: int| 0 <= j < names_after.len() implies names_after[j]
                            != q[0] by {
                            if j != i {
                                assert(names_after[j] == names_before[j]);
                            }
                        }
                        lemma_first_index_is(names_after, q[0], names_after.len() as int);
                    }
                    assert(after.at(q) == before.at(q));
                    assert(after@.dom().contains(q) == target.dom().contains(q));
                    assert(after@.dom().contains(q) ==> after@[q] == target[q]);
                }
            }
        }
        assert forall|q: Path| after@.dom().contains(q) == target.dom().contains(q) by {
            assert(agree(q));
        }
        assert forall|q: Path| #[trigger] after@.dom().contains(q) implies after@[q] == target[q] by {
            assert(agree(q));
        }
        assert(after@ =~= target);
        if before.wf() {
            assert forall|a: int, b: int|
                0 <= a < names_after.len() && 0 <= b < names_after.len() && a != b implies names_after[a]
                != names_after[b] by {
                if a != i && b != i {
                    assert(names_after[a] == names_before[a]);
                    assert(names_after[b] == names_before[b]);
                } else if i < before.kids().len() {
                    assert(names_before[i] == way[0]);
                    if a != i {
                        assert(names_after[a] == names_before[a]);
                    }
                    if b != i {
                        assert(names_after[b] == names_before[b]);
                    }
                } else {
                    if a != i {
                        assert(names_after[a] == names_before[a]);
                    }
                    if b != i {
                        assert(names_after[b] == names_before[b]);
                    }
                }
            }
            assert forall|j: int| 0 <= j < after.kids().len() implies (#[trigger] after.kids()[j]).wf() by {
                if j != i {
                    assert(after.kids()[j] == before.kids()[j]);
                } else if i < before.kids().len() {
                    assert(before.kids()[i].wf());
                } else {
                    assert(base.child_names().len() == 0);
                    assert(base.wf());
                }
            }
        }
    }
}

impl View for Node {
    type V = Map<Path, Seq<RecordView>>;

    /// The entries of every category of the tree below this node, by the
    /// path that leads to the category.
    open spec fn view(&self) -> Map<Path, Seq<RecordView>> {
        Map::new(|p: Path| self.at(p) is Some, |p: Path| self.at(p).unwrap().own())
    }
}

/// The tree `tree` after `record` was filed under `path`: the categories on
/// the way to `path` are there, those that were not there before without
/// entries, and `record` is the last entry of the category at `path`.
pub open spec fn filed(tree: Map<Path, Seq<RecordView>>, path: Path, record: RecordView) -> Map<
    Path,
    Seq<RecordView>,
> {
    Map::new(
        |q: Path| tree.dom().contains(q) || q.is_prefix_of(path),
        |q: Path|
            {
                let before = if tree.dom().contains(q) {
                    tree[q]
                } else {
                    Seq::empty()
                };
                if q == path {
                    before.push(record)
                } else {
                    before
                }
            },
    )
}

impl Default for Node {
    fn default() -> (r: Node)
        ensures
            r.name().len() == 0,
            r.kids().len() == 0,
            r.own().len() == 0,
    {
        Node::new(String::new())
    }
}

/// Two nodes are equal where they are equal as trees of categories.
impl PartialEq for Node {
    fn eq(&self, other: &Node) -> (r: bool) {
        self.equals(other)
    }
}

impl vstd::std_specs::cmp::PartialEqSpecImpl for Node {
    open spec fn obeys_eq_spec() -> bool {
        true
    }

    open spec fn eq_spec(&self, other: &Node) -> bool {
        self.same_as(*other)
    }
}

/// Whether a key function computes `f`: whatever it returns for a node is
/// what `f` gives for the node.
pub open spec fn computes<C: Fn(&Node) -> i64>(key: C, f: spec_fn(Node) -> i64) -> bool {
    forall|n: &Node, k: i64| call_ensures(key, (n,), k) ==> k == f(*n)
}

/// The entries that a list of references points to.
pub open spec fn pointed(entries: Seq<&Record>) -> Seq<Record> {
    Seq::new(entries.len(), |i: int| *entries[i])
}

/// What a walk has visited: each node with its depth.
pub open spec fn visits(walk: Seq<(&Node, usize)>) -> Seq<(Node, nat)> {
    Seq::new(walk.len(), |i: int| (*walk[i].0, walk[i].1 as nat))
}

/// An entry with `category` for its category, where it had none.
pub open spec fn categorized(record: RecordView, category: Seq<char>) -> RecordView {
    if record.category is Some {
        record
    } else {
        RecordView { category: Some(category), ..record }
    }
}

/// The tree that holds no entry: nothing but a root.
pub open spec fn empty_tree() -> Map<Path, Seq<RecordView>> {
    Map::empty().insert(Seq::<Seq<char>>::empty(), Seq::<RecordView>::empty())
}

/// The name that a tree gets from the file it was read from: what stands
/// before the first underscore of the file's name, without its directories.
pub open spec fn file_label(filename: Seq<char>) -> Seq<char> {
    split_on(split_on(filename, '/').last(), '_').first()
}

/// The category tree of one ledger. Its root has no name; an entry
/// without a category is filed under the root itself.
#[derive(Debug)]
pub struct Tree {
    name: String,
    root: Node,
}

impl View for Tree {
    type V = Map<Path, Seq<RecordView>>;

    /// The entries of every category of the tree, by the path that leads to
    /// the category from the root.
    open spec fn view(&self) -> Map<Path, Seq<RecordView>> {
        self.root()@
    }
}

impl Tree {
    #[verifier::type_invariant]
    spec fn inv(self) -> bool {
        self.root.wf() && self.root.name().len() == 0
    }

    /// The name of the tree.
    pub closed spec fn label(self) -> Seq<char> {
        self.name@
    }

    /// The root of the tree.
    pub closed spec fn root(self) -> Node {
        self.root
    }

    /// No two categories below one category have the same name, and the
    /// root has no name. Every tree that executable code can hold is well
    /// formed.
    pub open spec fn wf(self) -> bool {
        self.root().wf() && self.root().name().len() == 0
    }

    /// A tree without entries.
    pub fn new(name: String) -> (r: Tree)
        ensures
            r.label() == name@,
            r@ == empty_tree(),
            r.root().all_records() == Seq::<RecordView>::empty(),
            r.root().kids().len() == 0,
            r.wf(),
    {
        let root = Node::new(String::new());
        proof {
            assert(root.child_names().len() == 0);
            assert(root.all_records() =~= Seq::<RecordView>::empty());
            assert forall|q: Path| root@.dom().contains(q) == empty_tree().dom().contains(q) by {
                if q.len() == 0 {
                    assert(q == Seq::<Seq<char>>::empty());
                }
            }
            assert forall|q: Path| #[trigger] root@.dom().contains(q) implies root@[q]
                == empty_tree()[q] by {
                assert(q == Seq::<Seq<char>>::empty());
                assert(root.own() =~= Seq::<RecordView>::empty());
            }
            assert(root@ =~= empty_tree());
        }
        Tree { name, root }
    }

    /// The name of the tree that is read from a file of that name.
    pub fn extract_name_from_file(filename: &str) -> (r: String)
        ensures
            r@ == file_label(filename@),
    {
        let parts = split(filename, '/');
        let last = &parts[parts.len() - 1];
        assert(last@ == views(parts@).last());
        let pieces = split(last.as_str(), '_');
        assert(pieces[0]@ == views(pieces@).first());
        pieces[0].clone()
    }

    /// Files `record` under its category: the categories on the way from
    /// the root are made where they are not there yet, and the entry becomes
    /// the last of the category that its path ends at. No other category
    /// gets or loses an entry.
    pub fn insert(&mut self, record: Record)
        ensures
            final(self).label() == old(self).label(),
            final(self)@ == filed(old(self)@, record@.path(), record@),
            final(self).root().all_records().to_multiset() == old(
                self,
            ).root().all_records().to_multiset().insert(record@),
            final(self).wf(),
    {
        proof {
            use_type_invariant(&*self);
        }
        let path = record.path();
        let mut root = Node::new(String::new());
        proof {
            assert(root.child_names().len() == 0);
        }
        std::mem::swap(&mut root, &mut self.root);
        assert(views(path@).skip(0) == views(path@));
        root.insert_at(record, &path, 0);
        self.root = root;
    }

    /// Takes an entry of a ledger into the tree. An entry without a category
    /// gets `category`; the dictionary learns the category of the entry's
    /// description; the entry is filed; and the entry is handed back as it
    /// was filed.
    pub fn load_record(&mut self, record: Record, category: String, lookup: &mut Lookup) -> (r:
        Record)
        ensures
            r@ == categorized(record@, category@),
            final(lookup)@ == old(lookup)@.insert(r@.description, r@.category_text()),
            final(self).label() == old(self).label(),
            final(self)@ == filed(old(self)@, r@.path(), r@),
            final(self).root().all_records().to_multiset() == old(
                self,
            ).root().all_records().to_multiset().insert(r@),
            final(self).wf(),
    {
        let mut record = record;
        if record.category().is_none() {
            record.set_category(category);
        }
        match record.category() {
            Some(category) => {
                lookup.insert(record.description().clone(), category.clone());
            },
            None => {},
        }
        let filed = record.clone();
        self.insert(record);
        filed
    }

    /// The depth-first walk through the categories of the tree: each
    /// category with its depth, a category before those below it. The root
    /// is not part of the walk, and the categories directly below it are at
    /// depth 0.
    pub fn preorder(&self) -> (r: Vec<(&Node, usize)>)
        ensures
            visits(r@) == self.root().walk_below(self.root().kids().len(), 0),
    {
        let mut visited: Vec<(&Node, usize)> = Vec::new();
        let n = self.root.children.len();
        let mut i: usize = 0;
        assert(visits(visited@) == Seq::<(Node, nat)>::empty());
        while i < n
            invariant
                n == self.root().kids().len(),
                i <= n,
                visits(visited@) == self.root().walk_below(i as nat, 0),
            decreases n - i,
        {
            self.root.children[i].walk_into(0, &mut visited);
            i = i + 1;
        }
        visited
    }

    /// The depth-first walk through the categories of the tree, where the
    /// categories below each node are taken in the order of the keys that
    /// `key` gives them, from the lowest to the highest, categories with
    /// the same key in their own order. The root is not part of the walk,
    /// and the categories directly below it are at depth 0. Whatever the
    /// keys are, the walk visits what the walk in the categories' own order
    /// visits: each category once, at its depth.
    pub fn preorder_sort_by_key<C: Fn(&Node) -> i64>(&self, key: C) -> (r: Vec<(&Node, usize)>)
        requires
            forall|n: &Node| call_requires(key, (n,)),
        ensures
            forall|f: spec_fn(Node) -> i64| #[trigger]
                computes(key, f) ==> visits(r@) == self.root().sorted_walk_below(
                    f,
                    self.root().kids().len(),
                    0,
                ),
            visits(r@).to_multiset() == self.root().walk_below(
                self.root().kids().len(),
                0,
            ).to_multiset(),
    {
        let mut visited: Vec<(&Node, usize)> = Vec::new();
        assert(visits(visited@) == Seq::<(Node, nat)>::empty());
        proof {
            let none = Seq::<(Node, nat)>::empty();
            let all = self.root().walk_below(self.root().kids().len(), 0);
            lemma_multiset_commutative(none, all);
            assert(none + all == all);
        }
        self.root.sorted_walk_below_into(&key, 0, &mut visited);
        proof {
            assert forall|f: spec_fn(Node) -> i64| #[trigger] computes(key, f) implies visits(
                visited@,
            ) == self.root().sorted_walk_below(f, self.root().kids().len(), 0) by {
                assert(Seq::<(Node, nat)>::empty() + self.root().sorted_walk_below(
                    f,
                    self.root().kids().len(),
                    0,
                ) == self.root().sorted_walk_below(f, self.root().kids().len(), 0));
            }
        }
        visited
    }

    /// Each node of the tree: the root first, then the nodes below it in the
    /// order of the depth-first walk.
    pub fn nodes(&self) -> (r: Vec<&Node>)
        ensures
            r@.len() == self.root().walk(0).len(),
            forall|i: int| 0 <= i < r@.len() ==> *r@[i] == (#[trigger] self.root().walk(0)[i]).0,
    {
        self.root.for_each()
    }

    /// The root of the tree.
    pub fn get_root(&self) -> (r: &Node)
        ensures
            *r == self.root(),
            self.wf(),
    {
        proof {
            use_type_invariant(self);
        }
        &self.root
    }

    /// The name of the tree.
    pub fn get_name(&self) -> (r: &String)
        ensures
            r@ == self.label(),
    {
        &self.name
    }
}

/// Two trees are equal where their roots are: the names of the trees do not
/// count.
impl PartialEq for Tree {
    fn eq(&self, other: &Tree) -> (r: bool) {
        self.root.equals(&other.root)
    }
}

impl vstd::std_specs::cmp::PartialEqSpecImpl for Tree {
    open spec fn obeys_eq_spec() -> bool {
        true
    }

    open spec fn eq_spec(&self, other: &Tree) -> bool {
        self.root().same_as(other.root())
    }
}

/// A tree hands out its nodes: the root first, then the nodes below it in
/// the order of the depth-first walk.
impl<'a> IntoIterator for &'a Tree {
    type Item = &'a Node;

    type IntoIter = std::vec::IntoIter<&'a Node>;

    fn into_iter(self) -> (r: std::vec::IntoIter<&'a Node>)
        ensures
            exists|nodes: Vec<&'a Node>|
                r == vstd::std_specs::vec::spec_into_iter(nodes) && nodes@.len()
                    == self.root().walk(0).len() && forall|i: int|
                    0 <= i < nodes@.len() ==> *nodes@[i] == (#[trigger] self.root().walk(0)[i]).0,
    {
        self.nodes().into_iter()
    }
}

impl Default for Tree {
    fn default() -> (r: Tree)
        ensures
            r.label().len() == 0,
            r@ == empty_tree(),
            r.root().all_records() == Seq::<RecordView>::empty(),
            r.root().kids().len() == 0,
            r.wf(),
    {
        Tree::new(String::new())
    }
}

} // verus!
