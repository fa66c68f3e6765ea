//! What the report on one ledger is made with.

pub mod ignored_categories;
pub mod lookup;

pub use lookup::Lookup;

use crate::amount::{nearest_i64, Amount, ONE_UNIT};
use crate::record::{same_text, Record};
use crate::tree::total_tree::TreeTotal;
use crate::tree::{computes, visits, Node, Tree};
use crate::utils::ignored_categories::IgnoredCategories;
use vstd::prelude::*;

verus! {

/// How one ledger is reported on.
pub struct AnalyzeOptions {
    pub ignored_categories: IgnoredCategories,
    pub print_items: bool,
    pub hide_ignored: bool,
    pub depth: Option<usize>,
}

impl AnalyzeOptions {
    /// The options of these parts.
    pub fn new(
        ignored_categories: IgnoredCategories,
        print_items: bool,
        hide_ignored: bool,
        depth: Option<usize>,
    ) -> (r: AnalyzeOptions)
        ensures
            r.ignored_categories == ignored_categories,
            r.print_items == print_items,
            r.hide_ignored == hide_ignored,
            r.depth == depth,
    {
        AnalyzeOptions { ignored_categories, print_items, hide_ignored, depth }
    }

    /// The categories that are left out of the totals.
    pub fn ignored_categories(&self) -> (r: &IgnoredCategories)
        ensures
            *r == self.ignored_categories,
    {
        &self.ignored_categories
    }

    /// Whether the entries of each category are listed.
    pub fn print_items(&self) -> (r: &bool)
        ensures
            *r == self.print_items,
    {
        &self.print_items
    }

    /// Whether the categories that are left out of the totals are left out
    /// of the report too.
    pub fn hide_ignored(&self) -> (r: &bool)
        ensures
            *r == self.hide_ignored,
    {
        &self.hide_ignored
    }

    /// The number of levels of categories that are reported on, where it is
    /// limited.
    pub fn depth(&self) -> (r: &Option<usize>)
        ensures
            *r == self.depth,
    {
        &self.depth
    }
}

/// The colour in which an amount is written.
#[derive(Clone, Copy, Debug, PartialEq, Eq, Structural)]
pub enum Tint {
    /// The colour of what is not below zero.
    Green,
    /// The colour of what is below zero.
    Red,
}

/// The colour of an amount: red below zero, else green.
pub open spec fn tint_of(value: int) -> Tint {
    if value < 0 {
        Tint::Red
    } else {
        Tint::Green
    }
}

/// The amount as text, with `precision` digits behind the decimal point, and
/// the colour that tells whether it is below zero. There is none where the
/// amount cannot be written so.
pub fn format_with_color(value: &Amount, precision: usize) -> (r: Option<(String, Tint)>)
    ensures
        r is Some <==> value.spec_text_fits(precision),
        r matches Some(written) ==> written.0@ == value.spec_text(precision) && written.1
            == tint_of(value@),
{
    let tint = if value.is_negative() {
        Tint::Red
    } else {
        Tint::Green
    };
    match value.to_text(precision) {
        Some(text) => Some((text, tint)),
        None => None,
    }
}

/// The key by which the categories of a report are sorted: the largest
/// whole number that is not above the total; zero for a category without a
/// total.
pub open spec fn total_key(total: Option<Amount>) -> i64 {
    match total {
        Some(t) => nearest_i64(t@ / (ONE_UNIT as int)),
        None => 0,
    }
}

/// The key of a node in a report.
pub open spec fn node_key() -> spec_fn(Node) -> i64 {
    |node: Node| total_key(node.spec_total())
}

/// A hundred times the quotient of a total by the credits, without its
/// sign.
pub open spec fn share_of_credits(total: Option<Amount>, credits: Amount) -> Option<Amount> {
    match total {
        Some(total) => match total.spec_checked_div(credits) {
            Some(share) => Amount::spec_hundred().spec_checked_mul(share.spec_abs()),
            None => None,
        },
        None => None,
    }
}

/// What a line of the list of entries holds.
pub struct ItemView {
    pub description: Seq<char>,
    pub amount: Option<Amount>,
}

/// One line of the list of entries of a category: a description with the
/// sum of the amounts of the entries of that description.
#[derive(Debug)]
pub struct Item {
    pub description: String,
    pub amount: Option<Amount>,
}

impl View for Item {
    type V = ItemView;

    open spec fn view(&self) -> ItemView {
        ItemView { description: self.description@, amount: self.amount }
    }
}

/// The views of items.
pub open spec fn item_views(items: Seq<Item>) -> Seq<ItemView> {
    Seq::new(items.len(), |i: int| items[i]@)
}

/// The descriptions of items.
pub open spec fn descriptions(items: Seq<ItemView>) -> Seq<Seq<char>> {
    Seq::new(items.len(), |i: int| items[i].description)
}

/// The items with one more entry counted: its amount is added to the item
/// of its description, or it gets an item of its own behind the others.
pub open spec fn counted(items: Seq<ItemView>, entry: Record) -> Seq<ItemView> {
    let at = crate::text::first_index(descriptions(items), entry@.description);
    if 0 <= at < items.len() {
        items.update(
            at,
            ItemView {
                description: entry@.description,
                amount: match items[at].amount {
                    Some(sum) => sum.spec_checked_add(entry.spec_get_amount()),
                    None => None,
                },
            },
        )
    } else {
        items.push(
            ItemView { description: entry@.description, amount: Some(entry.spec_get_amount()) },
        )
    }
}

/// The entries by their descriptions: one item for each description, in the
/// order in which the descriptions first occur, with the sum of the
/// amounts of its entries.
pub open spec fn items_of(entries: Seq<Record>) -> Seq<ItemView>
    decreases entries.len(),
{
    if entries.len() == 0 {
        Seq::empty()
    } else {
        counted(items_of(entries.drop_last()), entries.last())
    }
}

/// What a line of the report holds.
pub struct TreeLineView {
    pub depth: nat,
    pub category: Seq<char>,
    pub total: Option<Amount>,
    pub percentage: Option<Amount>,
    pub ignored: bool,
    pub items: Seq<ItemView>,
}

/// One line of the report: a category at its depth, with its total, what
/// that is as a percentage of the credits of the whole ledger, whether the
/// category is left out of the totals, and its entries where they are
/// listed.
#[derive(Debug)]
pub struct TreeLine {
    pub depth: usize,
    pub category: String,
    pub total: Option<Amount>,
    pub percentage: Option<Amount>,
    pub ignored: bool,
    pub items: Vec<Item>,
}

impl View for TreeLine {
    type V = TreeLineView;

    open spec fn view(&self) -> TreeLineView {
        TreeLineView {
            depth: self.depth as nat,
            category: self.category@,
            total: self.total,
            percentage: self.percentage,
            ignored: self.ignored,
            items: item_views(self.items@),
        }
    }
}

/// The views of lines.
pub open spec fn line_views(lines: Seq<TreeLine>) -> Seq<TreeLineView> {
    Seq::new(lines.len(), |i: int| lines[i]@)
}

/// What a report is made with, as mathematical values.
pub struct Rules {
    pub credits: Amount,
    pub ignored: Set<Seq<char>>,
    pub print_items: bool,
    pub hide_ignored: bool,
    pub depth: Option<usize>,
}

/// Whether a category at `depth` gets a line: it is not deeper than the
/// report goes, where the categories directly below the root count as the
/// first level, and it is not hidden.
pub open spec fn listed(node: Node, depth: nat, rules: Rules) -> bool {
    &&& rules.depth matches Some(limit) ==> depth + 1 <= limit
    &&& !(rules.hide_ignored && rules.ignored.contains(node.name()))
}

/// The line of a category.
pub open spec fn line_of(node: Node, depth: nat, rules: Rules) -> TreeLineView {
    TreeLineView {
        depth,
        category: node.name(),
        total: node.spec_total(),
        percentage: share_of_credits(node.spec_total(), rules.credits),
        ignored: rules.ignored.contains(node.name()),
        items: if rules.print_items {
            items_of(node.entries())
        } else {
            Seq::empty()
        },
    }
}

/// The lines of the categories of a walk that get one.
pub open spec fn lines_of(walk: Seq<(Node, nat)>, rules: Rules) -> Seq<TreeLineView>
    decreases walk.len(),
{
    if walk.len() == 0 {
        Seq::empty()
    } else {
        let before = lines_of(walk.drop_last(), rules);
        let (node, depth) = walk.last();
        if listed(node, depth, rules) {
            before.push(line_of(node, depth, rules))
        } else {
            before
        }
    }
}

/// The rules that options and totals make.
pub open spec fn rules_of(total_tree: TreeTotal, opts: AnalyzeOptions) -> Rules {
    Rules {
        credits: total_tree.credits,
        ignored: opts.ignored_categories@,
        print_items: opts.print_items,
        hide_ignored: opts.hide_ignored,
        depth: opts.depth,
    }
}

/// The entries by their descriptions: one item for each description, in the
/// order in which the descriptions first occur, with the sum of the
/// amounts of its entries. An item has no sum where a sum on the way is not
/// exact.
pub fn items_by_description(entries: &Vec<Record>) -> (r: Vec<Item>)
    ensures
        item_views(r@) == items_of(entries@),
{
    let mut items: Vec<Item> = Vec::new();
    let n = entries.len();
    let mut i: usize = 0;
    assert(entries@.take(0) == Seq::<Record>::empty());
    assert(item_views(items@) == Seq::<ItemView>::empty());
    while i < n
        invariant
            n == entries.len(),
            i <= n,
            item_views(items@) == items_of(entries@.take(i as int)),
        decreases n - i,
    {
        let entry = &entries[i];
        proof {
            assert(entries@.take(i + 1).drop_last() == entries@.take(i as int));
            assert(entries@.take(i + 1).last() == *entry);
        }
        let ghost before = item_views(items@);
        let ghost names = descriptions(before);
        let m = items.len();
        let mut at: usize = 0;
        while at < m && !same_text(&items[at].description, entry.description())
            invariant
                m == items.len(),
                at <= m,
                names == descriptions(item_views(items@)),
                forall|j: int| 0 <= j < at ==> names[j] != entry@.description,
            decreases m - at,
        {
            at = at + 1;
        }
        proof {
            if at < m {
                assert(names[at as int] == entry@.description);
            }
            crate::text::lemma_first_index_is(names, entry@.description, at as int);
        }
        let amount = entry.get_amount();
        if at < m {
            let sum = match items[at].amount {
                Some(sum) => sum.checked_add(&amount),
                None => None,
            };
            items.set(at, Item { description: entry.description().clone(), amount: sum });
            assert(item_views(items@) == before.update(
                at as int,
                ItemView { description: entry@.description, amount: sum },
            ));
        } else {
            items.push(Item { description: entry.description().clone(), amount: Some(amount) });
            assert(item_views(items@) == before.push(
                ItemView { description: entry@.description, amount: Some(amount) },
            ));
        }
        i = i + 1;
    }
    assert(entries@.take(n as int) == entries@);
    items
}

/// The key of a node in a report: the largest whole number that is not
/// above its total.
pub fn key_of_node(node: &Node) -> (r: i64)
    ensures
        r == node_key()(*node),
{
    match node.total() {
        Some(total) => total.floor_key(),
        None => 0,
    }
}

/// The lines of the report on a tree: one for each category that is not
/// deeper than the report goes and is not hidden, in the order of the
/// depth-first walk in which the categories below each category are sorted
/// by their totals, the lowest first.
pub fn print_tree(tree: &Tree, total_tree: &TreeTotal, opts: &AnalyzeOptions) -> (r: Vec<TreeLine>)
    ensures
        line_views(r@) == lines_of(
            tree.root().sorted_walk_below(node_key(), tree.root().kids().len(), 0),
            rules_of(*total_tree, *opts),
        ),
{
    let key = |node: &Node| -> (k: i64)
        ensures
            k == node_key()(*node),
        { key_of_node(node) };
    assert(computes(key, node_key()));
    let walk = tree.preorder_sort_by_key(key);
    let ghost rules = rules_of(*total_tree, *opts);
    let ghost visited = visits(walk@);
    let mut lines: Vec<TreeLine> = Vec::new();
    let n = walk.len();
    let mut i: usize = 0;
    assert(visited.take(0) == Seq::<(Node, nat)>::empty());
    assert(line_views(lines@) == Seq::<TreeLineView>::empty());
    while i < n
        invariant
            n == walk.len(),
            visited == visits(walk@),
            rules == rules_of(*total_tree, *opts),
            i <= n,
            line_views(lines@) == lines_of(visited.take(i as int), rules),
        decreases n - i,
    {
        let (node, depth) = walk[i];
        proof {
            assert(visited.take(i + 1).drop_last() == visited.take(i as int));
            assert(visited.take(i + 1).last() == (*node, depth as nat));
        }
        let too_deep = match opts.depth {
            Some(limit) => depth >= limit,
            None => false,
        };
        let ignored = opts.ignored_categories.contains(node.catogory());
        if !too_deep && !(ignored && opts.hide_ignored) {
            let total = node.total();
            let percentage = match total {
                Some(total) => match total.checked_div(&total_tree.credits) {
                    Some(share) => Amount::hundred().checked_mul(&share.abs()),
                    None => None,
                },
                None => None,
            };
            let items = if opts.print_items {
                items_by_description(node.get_records())
            } else {
                Vec::new()
            };
            let ghost before = line_views(lines@);
            lines.push(
                TreeLine {
                    depth,
                    category: node.catogory().clone(),
                    total,
                    percentage,
                    ignored,
                    items,
                },
            );
            proof {
                assert(item_views(items@) == line_of(*node, depth as nat, rules).items);
                assert(line_views(lines@) == before.push(line_of(*node, depth as nat, rules)));
            }
        }
        i = i + 1;
    }
    assert(visited.take(n as int) == visited);
    lines
}

} // verus!
