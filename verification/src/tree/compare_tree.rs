//! The ledgers of several periods side by side.

use crate::amount::{
    checked_sum, is_rounded_quotient, lemma_checked_sum, nearest_i64, round_half_even, total_value,
    values, Amount,
};
use crate::record::same_text;
use crate::text::{lemma_text_le_antisymmetric, lemma_text_le_total, text_le, views};
use crate::tree::total_tree::TreeTotal;
use crate::tree::Tree;
use crate::utils::ignored_categories::IgnoredCategories;
use itertools::Itertools;
use vstd::prelude::*;
use vstd::seq_lib::to_multiset_contains;

verus! {

/// The number of days that a period counts.
pub const DAYS_IN_MONTH: usize = 30;

/// The name of the category of what comes in.
pub open spec fn income() -> Seq<char> {
    "Income"@
}

/// The name of the category of what the home costs.
pub open spec fn home() -> Seq<char> {
    "Home"@
}

/// The total of the category of that name directly below the root of a
/// tree. A tree without such a category counts as zero.
pub open spec fn category_total(tree: Tree, name: Seq<char>) -> Option<Amount> {
    match tree.root().at(seq![name]) {
        Some(node) => node.spec_total(),
        None => Some(Amount::spec_zero()),
    }
}

/// The totals of the category of that name in each of the trees.
pub open spec fn category_totals(trees: Seq<Tree>, name: Seq<char>) -> Seq<Option<Amount>> {
    Seq::new(trees.len(), |i: int| category_total(trees[i], name))
}

/// The amounts of a row, where none is missing.
pub open spec fn all_present(row: Seq<Option<Amount>>) -> Option<Seq<Amount>>
    decreases row.len(),
{
    if row.len() == 0 {
        Some(Seq::empty())
    } else {
        match (all_present(row.drop_last()), row.last()) {
            (Some(before), Some(last)) => Some(before.push(last)),
            _ => None,
        }
    }
}

/// What [`average`] returns: the sum of the amounts of the row, added up
/// from the left, divided by their number. There is none where an amount is
/// missing, where a sum on the way is not exact, where the row is empty, or
/// where the rounded quotient cannot be had.
pub open spec fn spec_average(row: Seq<Option<Amount>>) -> Option<Amount> {
    match all_present(row) {
        Some(amounts) => match checked_sum(amounts) {
            Some(sum) => sum.spec_divided_by(row.len() as usize),
            None => None,
        },
        None => None,
    }
}

/// An average is the sum of the amounts of its row divided by their number:
/// that exactly, or that rounded to as many digits as a decimal can hold.
pub proof fn lemma_average(row: Seq<Option<Amount>>)
    requires
        row.len() <= usize::MAX,
    ensures
        spec_average(row) matches Some(average) ==> all_present(row) matches Some(amounts)
            && is_rounded_quotient(
            total_value(values(amounts)),
            row.len() as int,
            average@,
            average.spec_scale() as int,
        ),
{
    match all_present(row) {
        Some(amounts) => {
            lemma_checked_sum(amounts);
            match checked_sum(amounts) {
                Some(sum) => {
                    sum.lemma_divided_by(row.len() as usize);
                },
                None => {},
            }
        },
        None => {},
    }
}

/// The last `k` items of a sequence, or all where it has fewer.
pub open spec fn window<T>(items: Seq<T>, k: nat) -> Seq<T> {
    if items.len() <= k {
        items
    } else {
        items.skip(items.len() - k)
    }
}

/// The total of the category of that name directly below the root of the
/// tree; zero where the tree has no such category.
pub fn category_total_in(tree: &Tree, name: &String) -> (r: Option<Amount>)
    ensures
        r == category_total(*tree, name@),
{
    match tree.get_root().child(name) {
        Some(node) => node.total(),
        None => Some(Amount::zero()),
    }
}

/// The totals of the category of that name in each of the trees.
pub fn category_totals_in(trees: &Vec<Tree>, name: &String) -> (r: Vec<Option<Amount>>)
    ensures
        r@ == category_totals(trees@, name@),
{
    let mut row: Vec<Option<Amount>> = Vec::new();
    let n = trees.len();
    let mut i: usize = 0;
    while i < n
        invariant
            n == trees.len(),
            i <= n,
            row.len() == i,
            forall|j: int| 0 <= j < i ==> row@[j] == category_total(trees@[j], name@),
        decreases n - i,
    {
        row.push(category_total_in(&trees[i], name));
        i = i + 1;
    }
    assert(row@ =~= category_totals(trees@, name@));
    row
}

/// The average of the amounts of a row. There is none where an amount is
/// missing, where a sum on the way is not exact, where the row is empty, or
/// where the quotient cannot be had.
pub fn average(row: &Vec<Option<Amount>>) -> (r: Option<Amount>)
    ensures
        r == spec_average(row@),
        r matches Some(average) ==> all_present(row@) matches Some(amounts)
            && is_rounded_quotient(
            total_value(values(amounts)),
            row.len() as int,
            average@,
            average.spec_scale() as int,
        ),
        row.len() == 0 ==> r is None,
{
    proof {
        lemma_average(row@);
    }
    let n = row.len();
    let mut sum: Option<Amount> = Some(Amount::zero());
    let ghost mut amounts: Option<Seq<Amount>> = Some(Seq::empty());
    let mut i: usize = 0;
    assert(row@.take(0) == Seq::<Option<Amount>>::empty());
    while i < n
        invariant
            n == row.len(),
            i <= n,
            amounts == all_present(row@.take(i as int)),
            sum == (match amounts {
                Some(a) => checked_sum(a),
                None => None,
            }),
        decreases n - i,
    {
        proof {
            assert(row@.take(i + 1).drop_last() == row@.take(i as int));
            assert(row@.take(i + 1).last() == row@[i as int]);
            match (amounts, row@[i as int]) {
                (Some(a), Some(x)) => {
                    assert(a.push(x).drop_last() == a);
                    amounts = Some(a.push(x));
                },
                _ => {
                    amounts = None;
                },
            }
        }
        sum =
        match (sum, row[i]) {
            (Some(before), Some(next)) => before.checked_add(&next),
            _ => None,
        };
        i = i + 1;
    }
    assert(row@.take(n as int) == row@);
    match sum {
        Some(sum) => sum.divided_by(n),
        None => None,
    }
}

/// The last `k` amounts of a row, or all where it has fewer.
pub fn last_amounts(row: &Vec<Option<Amount>>, k: usize) -> (r: Vec<Option<Amount>>)
    ensures
        r@ == window(row@, k as nat),
{
    let n = row.len();
    let start = if n <= k {
        0
    } else {
        n - k
    };
    let mut shown: Vec<Option<Amount>> = Vec::new();
    let mut i: usize = start;
    while i < n
        invariant
            n == row.len(),
            start <= i <= n,
            shown@ == row@.subrange(start as int, i as int),
        decreases n - i,
    {
        shown.push(row[i]);
        assert(row@.subrange(start as int, i + 1) == row@.subrange(
            start as int,
            i as int,
        ).push(row@[i as int]));
        i = i + 1;
    }
    assert(row@.subrange(start as int, n as int) == row@.skip(start as int));
    assert(row@.skip(0) == row@);
    shown
}

/// The names `names` and those of `more` that are not among them yet, in
/// their order.
pub open spec fn joined(names: Seq<Seq<char>>, more: Seq<Seq<char>>) -> Seq<Seq<char>>
    decreases more.len(),
{
    if more.len() == 0 {
        names
    } else {
        let before = joined(names, more.drop_last());
        if before.contains(more.last()) {
            before
        } else {
            before.push(more.last())
        }
    }
}

/// The names of the categories directly below the roots of the trees, each
/// once, in the order in which they first occur.
pub open spec fn category_union(trees: Seq<Tree>) -> Seq<Seq<char>>
    decreases trees.len(),
{
    if trees.len() == 0 {
        Seq::empty()
    } else {
        joined(category_union(trees.drop_last()), trees.last().root().child_names())
    }
}

/// The joined names hold each name once, and hold the names of both.
pub proof fn lemma_joined(names: Seq<Seq<char>>, more: Seq<Seq<char>>)
    requires
        names.no_duplicates(),
    ensures
        joined(names, more).no_duplicates(),
        forall|x: Seq<char>| joined(names, more).contains(x) == (names.contains(x) || more.contains(x)),
    decreases more.len(),
{
    if more.len() > 0 {
        let before = joined(names, more.drop_last());
        let last = more.last();
        lemma_joined(names, more.drop_last());
        assert forall|x: Seq<char>| joined(names, more).contains(x) == (names.contains(x)
            || more.contains(x)) by {
            if more.contains(x) {
                let i = choose|i: int| 0 <= i < more.len() && more[i] == x;
                if i < more.len() - 1 {
                    assert(more.drop_last()[i] == x);
                }
            }
            if more.drop_last().contains(x) {
                let i = choose|i: int| 0 <= i < more.len() - 1 && more.drop_last()[i] == x;
                assert(more[i] == x);
            }
            assert(more[more.len() - 1] == last);
            if !before.contains(last) {
                if before.contains(x) {
                    let i = choose|i: int| 0 <= i < before.len() && before[i] == x;
                    assert(before.push(last)[i] == x);
                }
                assert(before.push(last)[before.len() as int] == last);
            }
        }
    }
}

/// The union of the categories holds each name once, and holds exactly the
/// names of the categories directly below the root of one of the trees.
pub proof fn lemma_category_union(trees: Seq<Tree>)
    ensures
        category_union(trees).no_duplicates(),
        forall|x: Seq<char>|
            category_union(trees).contains(x) == exists|i: int|
                0 <= i < trees.len() && (#[trigger] trees[i]).root().child_names().contains(x),
    decreases trees.len(),
{
    if trees.len() > 0 {
        let before = trees.drop_last();
        lemma_category_union(before);
        lemma_joined(category_union(before), trees.last().root().child_names());
        assert forall|x: Seq<char>|
            category_union(trees).contains(x) == exists|i: int|
                0 <= i < trees.len() && (#[trigger] trees[i]).root().child_names().contains(
                    x,
                ) by {
            if category_union(before).contains(x) {
                let i = choose|i: int|
                    0 <= i < before.len() && (#[trigger] before[i]).root().child_names().contains(
                        x,
                    );
                assert(trees[i] == before[i]);
            }
            if trees.last().root().child_names().contains(x) {
                assert(trees[trees.len() - 1] == trees.last());
            }
            if exists|i: int|
                0 <= i < trees.len() && (#[trigger] trees[i]).root().child_names().contains(x) {
                let i = choose|i: int|
                    0 <= i < trees.len() && (#[trigger] trees[i]).root().child_names().contains(
                        x,
                    );
                if i < before.len() {
                    assert(before[i] == trees[i]);
                }
            }
        }
    }
}

/// The position of the first of `names` that equals `name`.
pub fn position_of(names: &Vec<String>, name: &String) -> (r: Option<usize>)
    ensures
        match r {
            Some(i) => i < names.len() && names@[i as int]@ == name@ && forall|j: int|
                0 <= j < i ==> views(names@)[j] != name@,
            None => !views(names@).contains(name@),
        },
{
    let n = names.len();
    let mut i: usize = 0;
    while i < n
        invariant
            n == names.len(),
            i <= n,
            forall|j: int| 0 <= j < i ==> views(names@)[j] != name@,
        decreases n - i,
    {
        if same_text(&names[i], name) {
            return Some(i);
        }
        i = i + 1;
    }
    None
}

/// The names of the categories directly below the roots of the trees, each
/// once, in the order in which they first occur.
pub fn categories_of(trees: &Vec<Tree>) -> (r: Vec<String>)
    ensures
        views(r@) == category_union(trees@),
{
    let mut names: Vec<String> = Vec::new();
    let n = trees.len();
    let mut i: usize = 0;
    assert(trees@.take(0) == Seq::<Tree>::empty());
    assert(views(names@) == Seq::<Seq<char>>::empty());
    while i < n
        invariant
            n == trees.len(),
            i <= n,
            views(names@) == category_union(trees@.take(i as int)),
        decreases n - i,
    {
        let children = trees[i].get_root().children();
        let ghost start = views(names@);
        let ghost more = trees@[i as int].root().child_names();
        let m = children.len();
        let mut j: usize = 0;
        assert(more.take(0) == Seq::<Seq<char>>::empty());
        while j < m
            invariant
                m == children.len(),
                children@ == trees@[i as int].root().kids(),
                more == trees@[i as int].root().child_names(),
                j <= m,
                views(names@) == joined(start, more.take(j as int)),
            decreases m - j,
        {
            let name = children[j].catogory();
            proof {
                assert(more.take(j + 1).drop_last() == more.take(j as int));
                assert(more.take(j + 1).last() == name@);
            }
            match position_of(&names, name) {
                Some(_) => {
                    assert(views(names@).contains(name@)) by {
                        let p = choose|p: int| 0 <= p < names.len() && names@[p]@ == name@;
                        assert(views(names@)[p] == name@);
                    }
                },
                None => {
                    let ghost before = views(names@);
                    names.push(name.clone());
                    assert(views(names@) == before.push(name@));
                },
            }
            j = j + 1;
        }
        proof {
            assert(more.take(m as int) == more);
            assert(trees@.take(i + 1).drop_last() == trees@.take(i as int));
            assert(trees@.take(i + 1).last() == trees@[i as int]);
        }
        i = i + 1;
    }
    assert(trees@.take(n as int) == trees@);
    names
}

/// How the ledgers of several periods are compared.
pub struct CompareOptions {
    pub ignored_categories: IgnoredCategories,
    pub hide_ignored_categories: bool,
    pub number_of_columns: usize,
}

impl CompareOptions {
    /// The options of these parts.
    pub fn new(
        ignored_categories: IgnoredCategories,
        hide_ignored_categories: bool,
        number_of_columns: usize,
    ) -> (r: CompareOptions)
        ensures
            r.ignored_categories == ignored_categories,
            r.hide_ignored_categories == hide_ignored_categories,
            r.number_of_columns == number_of_columns,
    {
        CompareOptions { ignored_categories, hide_ignored_categories, number_of_columns }
    }
}

/// The average of a category over the trees. A category that no tree has
/// counts as zero.
pub open spec fn average_of(trees: Seq<Tree>, name: Seq<char>) -> Option<Amount> {
    if category_union(trees).contains(name) {
        spec_average(category_totals(trees, name))
    } else {
        Some(Amount::spec_zero())
    }
}

/// The average of a category for one day of a period.
pub open spec fn average_per_day_of(trees: Seq<Tree>, name: Seq<char>) -> Option<Amount> {
    if category_union(trees).contains(name) {
        match spec_average(category_totals(trees, name)) {
            Some(average) => average.spec_divided_by(DAYS_IN_MONTH),
            None => None,
        }
    } else {
        Some(Amount::spec_zero())
    }
}

/// A hundred times the quotient of `part`, without its sign, by `whole`.
pub open spec fn percentage(part: Option<Amount>, whole: Option<Amount>) -> Option<Amount> {
    match (part, whole) {
        (Some(part), Some(whole)) => match part.spec_abs().spec_checked_div(whole) {
            Some(share) => Amount::spec_hundred().spec_checked_mul(share),
            None => None,
        },
        _ => None,
    }
}

/// The average of a category as a percentage of the average income.
pub open spec fn percentage_of(trees: Seq<Tree>, name: Seq<char>) -> Option<Amount> {
    percentage(average_of(trees, name), average_of(trees, income()))
}

/// The key by which a category is sorted: its average, rounded to a whole
/// number; zero where it has none.
pub open spec fn sort_key(average: Option<Amount>) -> i64 {
    match average {
        Some(a) => nearest_i64(round_half_even(a@)),
        None => 0,
    }
}

/// What a row of the comparison holds.
pub struct CategoryRowView {
    pub category: Seq<char>,
    pub average: Option<Amount>,
    pub average_per_day: Option<Amount>,
    pub percentage: Option<Amount>,
    pub totals: Seq<Option<Amount>>,
}

/// One row of the comparison: a category with its average over all periods,
/// what that is for a day and as a percentage of the average income, and
/// its total in each of the periods that are shown.
#[derive(Debug)]
pub struct CategoryRow {
    pub category: String,
    pub average: Option<Amount>,
    pub average_per_day: Option<Amount>,
    pub percentage: Option<Amount>,
    pub totals: Vec<Option<Amount>>,
}

impl View for CategoryRow {
    type V = CategoryRowView;

    open spec fn view(&self) -> CategoryRowView {
        CategoryRowView {
            category: self.category@,
            average: self.average,
            average_per_day: self.average_per_day,
            percentage: self.percentage,
            totals: self.totals@,
        }
    }
}

/// The row of a category, for the last `columns` of the trees.
pub open spec fn row_of(trees: Seq<Tree>, columns: nat, name: Seq<char>) -> CategoryRowView {
    CategoryRowView {
        category: name,
        average: average_of(trees, name),
        average_per_day: average_per_day_of(trees, name),
        percentage: percentage_of(trees, name),
        totals: window(category_totals(trees, name), columns),
    }
}

/// The comparison of the ledgers of several periods.
pub struct CompareTree<'a> {
    trees: &'a Vec<Tree>,
    categories: Vec<String>,
    totals: Vec<Option<TreeTotal>>,
    averages: Vec<Option<Amount>>,
    options: CompareOptions,
}

/// The totals of each of the trees, without the entries of the categories
/// to ignore.
pub open spec fn totals_of(trees: Seq<Tree>, ignored: Set<Seq<char>>) -> Seq<Option<TreeTotal>> {
    Seq::new(trees.len(), |i: int| TreeTotal::tally(trees[i].root().all_entries(), ignored))
}

/// The averages of each of the categories over the trees.
pub open spec fn averages_of(trees: Seq<Tree>, categories: Seq<Seq<char>>) -> Seq<Option<Amount>> {
    Seq::new(categories.len(), |i: int| spec_average(category_totals(trees, categories[i])))
}

impl<'a> CompareTree<'a> {
    #[verifier::type_invariant]
    spec fn inv(self) -> bool {
        &&& views(self.categories@) == category_union(self.trees@)
        &&& self.averages@ == averages_of(self.trees@, views(self.categories@))
        &&& self.totals@ == totals_of(self.trees@, self.options.ignored_categories@)
    }

    /// The trees that are compared, one for each period, the oldest first.
    pub closed spec fn trees(self) -> Seq<Tree> {
        self.trees@
    }

    /// How the trees are compared.
    pub closed spec fn options(self) -> CompareOptions {
        self.options
    }

    /// The names of the categories that are compared.
    pub closed spec fn categories(self) -> Seq<Seq<char>> {
        views(self.categories@)
    }

    /// The average of each of the categories, in the order of
    /// [`CompareTree::categories`].
    pub closed spec fn averages(self) -> Seq<Option<Amount>> {
        self.averages@
    }

    /// The totals of each of the trees.
    pub closed spec fn totals(self) -> Seq<Option<TreeTotal>> {
        self.totals@
    }

    /// What a comparison holds: the categories directly below the roots of
    /// its trees, each once, in the order in which they first occur; the
    /// average of each category over all trees; and the totals of each
    /// tree, without the entries of the categories to ignore. Every
    /// comparison that executable code can hold is well formed.
    pub open spec fn wf(self) -> bool {
        &&& self.categories() == category_union(self.trees())
        &&& self.averages() == averages_of(self.trees(), self.categories())
        &&& self.totals() == totals_of(self.trees(), self.ignored())
    }

    /// Whether `report` is the comparison of the trees: it names the periods
    /// that are shown; it has the row of the income; it has the rows of the
    /// other categories, each once, in the order of their rounded averages,
    /// those with the same rounded average in the order of their names,
    /// without the categories to ignore where these are hidden; and it has
    /// the rows of the summary.
    pub open spec fn reports(trees: Seq<Tree>, options: CompareOptions, report: CompareReport) -> bool {
        let columns = options.number_of_columns as nat;
        let totals = totals_of(trees, options.ignored_categories@);
        &&& views(report.periods@) == window(labels(trees), columns)
        &&& report.income@ == row_of(trees, columns, income())
        &&& forall|i: int|
            0 <= i < report.categories.len() ==> (#[trigger] report.categories[i])@ == row_of(
                trees,
                columns,
                report.categories[i].category@,
            )
        &&& row_keys(report.categories@).to_multiset() == candidates(
            trees,
            category_union(trees),
            options.ignored_categories@,
            options.hide_ignored_categories,
        ).to_multiset()
        &&& forall|i: int, j: int|
            0 <= i < j < report.categories.len() ==> pair_le(
                row_keys(report.categories@)[i],
                row_keys(report.categories@)[j],
            )
        &&& report.spent@ == summary_of(trees, columns, "Spent"@, spent_of(totals))
        &&& report.spent_without_home@ == summary_of(
            trees,
            columns,
            "Spent without home"@,
            spent_without_home_of(trees, totals),
        )
        &&& report.saved@ == summary_of(trees, columns, "Saved"@, saved_of(totals))
        &&& report.percentage_saved@ == percentage_row_of(columns, percentages_saved_of(totals))
    }

    /// The categories to ignore.
    pub open spec fn ignored(self) -> Set<Seq<char>> {
        self.options().ignored_categories@
    }

    /// Whether the categories to ignore are left out of the comparison.
    pub open spec fn hides_ignored(self) -> bool {
        self.options().hide_ignored_categories
    }

    /// The number of periods that are shown: the last ones.
    pub open spec fn columns(self) -> nat {
        self.options().number_of_columns as nat
    }

    /// The comparison of the trees: the categories directly below their
    /// roots, the average of each category over all trees, and the totals
    /// of each tree.
    pub fn new(trees: &'a Vec<Tree>, options: CompareOptions) -> (r: CompareTree<'a>)
        ensures
            r.trees() == trees@,
            r.options() == options,
            r.categories() == category_union(trees@),
            r.averages() == averages_of(trees@, category_union(trees@)),
            r.totals() == totals_of(trees@, options.ignored_categories@),
            r.wf(),
    {
        let categories = categories_of(trees);
        let averages = Self::compute_averages(trees, &categories);
        let mut totals: Vec<Option<TreeTotal>> = Vec::new();
        let n = trees.len();
        let mut i: usize = 0;
        while i < n
            invariant
                n == trees.len(),
                i <= n,
                totals.len() == i,
                forall|j: int|
                    0 <= j < i ==> totals@[j] == TreeTotal::tally(
                        trees@[j].root().all_entries(),
                        options.ignored_categories@,
                    ),
            decreases n - i,
        {
            totals.push(TreeTotal::create_from(&trees[i], &options.ignored_categories));
            i = i + 1;
        }
        assert(totals@ =~= totals_of(trees@, options.ignored_categories@));
        CompareTree { trees, categories, totals, averages, options }
    }

    /// The average of each of the categories over the trees, where a tree
    /// without a category counts as zero for it.
    pub fn compute_averages(trees: &Vec<Tree>, categories: &Vec<String>) -> (r: Vec<Option<Amount>>)
        ensures
            r@ == averages_of(trees@, views(categories@)),
    {
        let mut averages: Vec<Option<Amount>> = Vec::new();
        let n = categories.len();
        let mut i: usize = 0;
        while i < n
            invariant
                n == categories.len(),
                i <= n,
                averages.len() == i,
                forall|j: int|
                    0 <= j < i ==> averages@[j] == spec_average(
                        category_totals(trees@, categories@[j]@),
                    ),
            decreases n - i,
        {
            let row = category_totals_in(trees, &categories[i]);
            averages.push(average(&row));
            i = i + 1;
        }
        assert(averages@ =~= averages_of(trees@, views(categories@)));
        averages
    }

    /// The average of the category over all periods; zero for a category
    /// that no tree has.
    pub fn output_average(&self, category: &String) -> (r: Option<Amount>)
        ensures
            r == average_of(self.trees(), category@),
    {
        proof {
            use_type_invariant(self);
        }
        match position_of(&self.categories, category) {
            Some(i) => {
                assert(views(self.categories@)[i as int] == category@);
                self.averages[i]
            },
            None => Some(Amount::zero()),
        }
    }

    /// The average of the category for one day; zero for a category that no
    /// tree has.
    pub fn output_average_per_day(&self, category: &String) -> (r: Option<Amount>)
        ensures
            r == average_per_day_of(self.trees(), category@),
    {
        proof {
            use_type_invariant(self);
        }
        match position_of(&self.categories, category) {
            Some(i) => {
                assert(views(self.categories@)[i as int] == category@);
                match self.averages[i] {
                    Some(average) => average.divided_by(DAYS_IN_MONTH),
                    None => None,
                }
            },
            None => Some(Amount::zero()),
        }
    }

    /// The average of the category, without its sign, as a percentage of
    /// the average income. There is none where the average income is zero.
    pub fn output_percentage(&self, category: &String) -> (r: Option<Amount>)
        ensures
            r == percentage_of(self.trees(), category@),
    {
        let average_income = self.output_average(&String::from_str("Income"));
        match (self.output_average(category), average_income) {
            (Some(average), Some(average_income)) => match average.abs().checked_div(
                &average_income,
            ) {
                Some(share) => Amount::hundred().checked_mul(&share),
                None => None,
            },
            _ => None,
        }
    }

    /// The row of the category: its average, what that is for a day and as
    /// a percentage of the average income, and its totals in the periods
    /// that are shown.
    pub fn output_category(&self, category: &String) -> (r: CategoryRow)
        ensures
            r@ == row_of(self.trees(), self.columns(), category@),
    {
        let totals = category_totals_in(self.trees, category);
        CategoryRow {
            category: category.clone(),
            average: self.output_average(category),
            average_per_day: self.output_average_per_day(category),
            percentage: self.output_percentage(category),
            totals: last_amounts(&totals, self.options.number_of_columns),
        }
    }

    /// The categories that get a row of their own below that of the income:
    /// each with the key by which it is sorted, in the order of the keys,
    /// categories with the same key in the order of their names.
    pub fn sorted_categories(&self) -> (r: Vec<(i64, String)>)
        ensures
            keyed(r@).to_multiset() == candidates(
                self.trees(),
                category_union(self.trees()),
                self.ignored(),
                self.hides_ignored(),
            ).to_multiset(),
            forall|i: int, j: int| 0 <= i < j < r.len() ==> pair_le(keyed(r@)[i], keyed(r@)[j]),
    {
        proof {
            use_type_invariant(self);
        }
        let income = String::from_str("Income");
        let mut pairs: Vec<(i64, String)> = Vec::new();
        let n = self.categories.len();
        let mut i: usize = 0;
        let ghost names = views(self.categories@);
        assert(names.take(0) == Seq::<Seq<char>>::empty());
        assert(keyed(pairs@) == Seq::<(i64, Seq<char>)>::empty());
        while i < n
            invariant
                n == self.categories.len(),
                names == views(self.categories@),
                names == category_union(self.trees()),
                self.averages@ == averages_of(self.trees(), names),
                i <= n,
                income@ == "Income"@,
                keyed(pairs@) == candidates(
                    self.trees(),
                    names.take(i as int),
                    self.ignored(),
                    self.hides_ignored(),
                ),
            decreases n - i,
        {
            let name = &self.categories[i];
            proof {
                assert(names.take(i + 1).drop_last() == names.take(i as int));
                assert(names.take(i + 1).last() == name@);
                assert(names[i as int] == name@);
                assert(names.contains(name@));
            }
            let hidden = self.options.hide_ignored_categories
                && self.options.ignored_categories.contains(name);
            if !same_text(name, &income) && !hidden {
                let key = match self.averages[i] {
                    Some(average) => average.round_key(),
                    None => 0,
                };
                let ghost before = keyed(pairs@);
                pairs.push((key, name.clone()));
                assert(keyed(pairs@) == before.push((key, name@)));
            }
            i = i + 1;
        }
        assert(names.take(n as int) == names);
        sorted_pairs(pairs)
    }

    /// A row of the summary: the average of the values over all periods,
    /// what that is for a day and as a share of the average income, and the
    /// values of the periods that are shown.
    pub fn write_summary_row(&self, title: &str, values: &Vec<Option<Amount>>) -> (r: SummaryRow)
        ensures
            r@ == summary_of(self.trees(), self.columns(), title@, values@),
    {
        let mean = average(values);
        let average_income = self.output_average(&String::from_str("Income"));
        let average_per_day = match mean {
            Some(mean) => mean.divided_by(DAYS_IN_MONTH),
            None => None,
        };
        let share_of_income = match (mean, average_income) {
            (Some(mean), Some(average_income)) => match mean.checked_div(&average_income) {
                Some(share) => Amount::thousand().checked_mul(&share),
                None => None,
            },
            _ => None,
        };
        SummaryRow {
            title: String::from_str(title),
            average: mean,
            average_per_day,
            share_of_income,
            values: last_amounts(values, self.options.number_of_columns),
        }
    }

    /// What each period spent: the debits of its tree.
    pub fn spent(&self) -> (r: Vec<Option<Amount>>)
        ensures
            r@ == spent_of(totals_of(self.trees(), self.ignored())),
    {
        proof {
            use_type_invariant(self);
        }
        let mut values: Vec<Option<Amount>> = Vec::new();
        let n = self.totals.len();
        let mut i: usize = 0;
        while i < n
            invariant
                n == self.totals.len(),
                i <= n,
                values.len() == i,
                forall|j: int| 0 <= j < i ==> values@[j] == spent_in(self.totals@[j]),
            decreases n - i,
        {
            values.push(
                match self.totals[i] {
                    Some(totals) => Some(totals.debits),
                    None => None,
                },
            );
            i = i + 1;
        }
        assert(values@ =~= spent_of(self.totals@));
        values
    }

    /// What each period spent on other things than the home: the debits of
    /// its tree without the total of its home category. A tree without a
    /// home category spent nothing on it.
    pub fn spent_without_home(&self) -> (r: Vec<Option<Amount>>)
        ensures
            r@ == spent_without_home_of(self.trees(), totals_of(self.trees(), self.ignored())),
    {
        proof {
            use_type_invariant(self);
        }
        let home = String::from_str("Home");
        let mut values: Vec<Option<Amount>> = Vec::new();
        let n = self.totals.len();
        let mut i: usize = 0;
        while i < n
            invariant
                n == self.totals.len(),
                n == self.trees@.len(),
                home@ == "Home"@,
                i <= n,
                values.len() == i,
                forall|j: int|
                    0 <= j < i ==> values@[j] == spent_without_home_in(
                        self.trees@[j],
                        self.totals@[j],
                    ),
            decreases n - i,
        {
            values.push(
                match (self.totals[i], category_total_in(&self.trees[i], &home)) {
                    (Some(totals), Some(home)) => totals.debits.checked_sub(&home),
                    _ => None,
                },
            );
            i = i + 1;
        }
        assert(values@ =~= spent_without_home_of(self.trees@, self.totals@));
        values
    }

    /// What each period saved: the total of its tree.
    pub fn saved(&self) -> (r: Vec<Option<Amount>>)
        ensures
            r@ == saved_of(totals_of(self.trees(), self.ignored())),
    {
        proof {
            use_type_invariant(self);
        }
        let mut values: Vec<Option<Amount>> = Vec::new();
        let n = self.totals.len();
        let mut i: usize = 0;
        while i < n
            invariant
                n == self.totals.len(),
                i <= n,
                values.len() == i,
                forall|j: int| 0 <= j < i ==> values@[j] == saved_in(self.totals@[j]),
            decreases n - i,
        {
            values.push(
                match self.totals[i] {
                    Some(totals) => totals.total(),
                    None => None,
                },
            );
            i = i + 1;
        }
        assert(values@ =~= saved_of(self.totals@));
        values
    }

    /// What each period saved as a percentage of what came in.
    pub fn percentages_saved(&self) -> (r: Vec<Option<Amount>>)
        ensures
            r@ == percentages_saved_of(totals_of(self.trees(), self.ignored())),
    {
        proof {
            use_type_invariant(self);
        }
        let mut values: Vec<Option<Amount>> = Vec::new();
        let n = self.totals.len();
        let mut i: usize = 0;
        while i < n
            invariant
                n == self.totals.len(),
                i <= n,
                values.len() == i,
                forall|j: int| 0 <= j < i ==> values@[j] == percentage_saved_in(self.totals@[j]),
            decreases n - i,
        {
            values.push(
                match self.totals[i] {
                    Some(totals) => totals.percentage_saved(),
                    None => None,
                },
            );
            i = i + 1;
        }
        assert(values@ =~= percentages_saved_of(self.totals@));
        values
    }

    /// The names of the periods that are shown: the last ones, the oldest
    /// of them first.
    pub fn periods(&self) -> (r: Vec<String>)
        ensures
            views(r@) == window(labels(self.trees()), self.columns()),
    {
        let n = self.trees.len();
        let k = self.options.number_of_columns;
        let start = if n <= k {
            0
        } else {
            n - k
        };
        let ghost all = labels(self.trees@);
        let mut names: Vec<String> = Vec::new();
        let mut i: usize = start;
        assert(views(names@) == all.subrange(start as int, start as int));
        while i < n
            invariant
                n == self.trees@.len(),
                all == labels(self.trees@),
                start <= i <= n,
                views(names@) == all.subrange(start as int, i as int),
            decreases n - i,
        {
            let ghost before = views(names@);
            names.push(self.trees[i].get_name().clone());
            proof {
                assert(views(names@) == before.push(all[i as int]));
                assert(all.subrange(start as int, i + 1) == all.subrange(
                    start as int,
                    i as int,
                ).push(all[i as int]));
            }
            i = i + 1;
        }
        assert(all.subrange(start as int, n as int) == all.skip(start as int));
        assert(all.skip(0) == all);
        names
    }

    /// The whole comparison: the periods that are shown; the row of the
    /// income; the rows of the other categories, in the order of their
    /// rounded averages, those with the same rounded average in the order
    /// of their names, without the categories to ignore where these are
    /// hidden; and the rows of the summary.
    pub fn report(&self) -> (r: CompareReport)
        ensures
            Self::reports(self.trees(), self.options(), r),
    {
        let sorted = self.sorted_categories();
        let mut rows: Vec<CategoryRow> = Vec::new();
        let n = sorted.len();
        let mut i: usize = 0;
        while i < n
            invariant
                n == sorted.len(),
                i <= n,
                rows.len() == i,
                forall|j: int|
                    0 <= j < i ==> (#[trigger] rows[j])@ == row_of(
                        self.trees(),
                        self.columns(),
                        sorted@[j].1@,
                    ),
            decreases n - i,
        {
            rows.push(self.output_category(&sorted[i].1));
            i = i + 1;
        }
        proof {
            lemma_candidate_keys(
                self.trees(),
                category_union(self.trees()),
                self.ignored(),
                self.hides_ignored(),
            );
            let wanted = candidates(
                self.trees(),
                category_union(self.trees()),
                self.ignored(),
                self.hides_ignored(),
            );
            assert forall|j: int| 0 <= j < n implies row_keys(rows@)[j] == keyed(sorted@)[j] by {
                let pair = keyed(sorted@)[j];
                assert(keyed(sorted@).contains(pair));
                to_multiset_contains(keyed(sorted@), pair);
                to_multiset_contains(wanted, pair);
                assert(wanted.contains(pair));
                assert(category_union(self.trees()).contains(pair.1));
                assert(rows[j]@.average == average_of(self.trees(), sorted@[j].1@));
            }
            assert(row_keys(rows@) =~= keyed(sorted@));
        }
        let percentages = self.percentages_saved();
        CompareReport {
            periods: self.periods(),
            income: self.output_category(&String::from_str("Income")),
            categories: rows,
            spent: self.write_summary_row("Spent", &self.spent()),
            spent_without_home: self.write_summary_row(
                "Spent without home",
                &self.spent_without_home(),
            ),
            saved: self.write_summary_row("Saved", &self.saved()),
            percentage_saved: PercentageRow {
                average: average(&percentages),
                values: last_amounts(&percentages, self.options.number_of_columns),
            },
        }
    }
}

/// The names of the trees.
pub open spec fn labels(trees: Seq<Tree>) -> Seq<Seq<char>> {
    Seq::new(trees.len(), |i: int| trees[i].label())
}

/// The pairs of a key and a name, the names as sequences of characters.
pub open spec fn keyed(pairs: Seq<(i64, String)>) -> Seq<(i64, Seq<char>)> {
    Seq::new(pairs.len(), |i: int| (pairs[i].0, pairs[i].1@))
}

/// Whether a pair of a key and a name comes before another or equals it: by
/// the key, and by the name where the keys are the same.
pub open spec fn pair_le(a: (i64, Seq<char>), b: (i64, Seq<char>)) -> bool {
    a.0 < b.0 || (a.0 == b.0 && text_le(a.1, b.1))
}

/// Sorts pairs of a key and a name with `itertools::Itertools::sorted`, which
/// sorts by the order of the standard library: for tuples, by the first
/// parts and by the second where those are equal; for integers, by value;
/// for strings, by the first character in which two differ. The contract
/// claims that the result holds the pairs that were handed in, each as often
/// as it was there, and that it is sorted so.
#[verifier::external_body]
pub(crate) fn sorted_pairs(pairs: Vec<(i64, String)>) -> (r: Vec<(i64, String)>)
    ensures
        keyed(r@).to_multiset() == keyed(pairs@).to_multiset(),
        forall|i: int, j: int| 0 <= i < j < r.len() ==> pair_le(keyed(r@)[i], keyed(r@)[j]),
{
    pairs.into_iter().sorted().collect()
}

/// The order of sorted pairs is the only one: two lists that hold the same
/// pairs, each as often in the one as in the other, and are both sorted, are
/// the same list.
pub proof fn lemma_sorted_pairs_are_the_same(
    first: Seq<(i64, Seq<char>)>,
    second: Seq<(i64, Seq<char>)>,
)
    requires
        first.to_multiset() == second.to_multiset(),
        forall|i: int, j: int| 0 <= i < j < first.len() ==> pair_le(first[i], first[j]),
        forall|i: int, j: int| 0 <= i < j < second.len() ==> pair_le(second[i], second[j]),
    ensures
        first == second,
    decreases first.len(),
{
    first.to_multiset_ensures();
    second.to_multiset_ensures();
    if first.len() == 0 {
        assert(first =~= second);
    } else {
        let a = first.last();
        let b = second.last();
        assert(first.contains(a)) by {
            assert(first[first.len() - 1] == a);
        }
        assert(second.contains(b)) by {
            assert(second[second.len() - 1] == b);
        }
        to_multiset_contains(first, a);
        to_multiset_contains(second, a);
        to_multiset_contains(first, b);
        to_multiset_contains(second, b);
        let i = choose|i: int| 0 <= i < second.len() && second[i] == a;
        let j = choose|j: int| 0 <= j < first.len() && first[j] == b;
        assert(pair_le(a, b)) by {
            if i < second.len() - 1 {
                assert(pair_le(second[i], second[second.len() - 1]));
            } else {
                lemma_text_le_total(a.1, a.1);
            }
        }
        assert(pair_le(b, a)) by {
            if j < first.len() - 1 {
                assert(pair_le(first[j], first[first.len() - 1]));
            } else {
                lemma_text_le_total(b.1, b.1);
            }
        }
        assert(a == b) by {
            lemma_text_le_antisymmetric(a.1, b.1);
        }
        assert(first.remove(first.len() - 1) == first.drop_last());
        assert(second.remove(second.len() - 1) == second.drop_last());
        assert(first.drop_last().to_multiset() == second.drop_last().to_multiset());
        assert forall|i: int, j: int| 0 <= i < j < first.len() - 1 implies pair_le(
            first.drop_last()[i],
            first.drop_last()[j],
        ) by {
            assert(pair_le(first[i], first[j]));
        }
        assert forall|i: int, j: int| 0 <= i < j < second.len() - 1 implies pair_le(
            second.drop_last()[i],
            second.drop_last()[j],
        ) by {
            assert(pair_le(second[i], second[j]));
        }
        lemma_sorted_pairs_are_the_same(first.drop_last(), second.drop_last());
        assert(first =~= first.drop_last().push(a));
        assert(second =~= second.drop_last().push(b));
    }
}

/// Whether a category gets a row of its own below that of the income: the
/// income does not, nor a category to ignore where these are hidden.
pub open spec fn shown(name: Seq<char>, ignored: Set<Seq<char>>, hide: bool) -> bool {
    name != income() && !(hide && ignored.contains(name))
}

/// Those of `names` that get a row of their own, each with the key by which
/// it is sorted.
pub open spec fn candidates(
    trees: Seq<Tree>,
    names: Seq<Seq<char>>,
    ignored: Set<Seq<char>>,
    hide: bool,
) -> Seq<(i64, Seq<char>)>
    decreases names.len(),
{
    if names.len() == 0 {
        Seq::empty()
    } else {
        let before = candidates(trees, names.drop_last(), ignored, hide);
        let last = names.last();
        if shown(last, ignored, hide) {
            before.push((sort_key(spec_average(category_totals(trees, last))), last))
        } else {
            before
        }
    }
}

/// The key of each candidate is the rounded average of its category.
pub proof fn lemma_candidate_keys(
    trees: Seq<Tree>,
    names: Seq<Seq<char>>,
    ignored: Set<Seq<char>>,
    hide: bool,
)
    ensures
        forall|pair: (i64, Seq<char>)| #[trigger]
            candidates(trees, names, ignored, hide).contains(pair) ==> names.contains(pair.1)
                && shown(pair.1, ignored, hide) && pair.0 == sort_key(
                spec_average(category_totals(trees, pair.1)),
            ),
    decreases names.len(),
{
    if names.len() > 0 {
        let front = names.drop_last();
        lemma_candidate_keys(trees, front, ignored, hide);
        let before = candidates(trees, front, ignored, hide);
        assert forall|pair: (i64, Seq<char>)| #[trigger]
            candidates(trees, names, ignored, hide).contains(pair) implies names.contains(pair.1)
            && shown(pair.1, ignored, hide) && pair.0 == sort_key(
            spec_average(category_totals(trees, pair.1)),
        ) by {
            let all = candidates(trees, names, ignored, hide);
            let i = choose|i: int| 0 <= i < all.len() && all[i] == pair;
            if i < before.len() {
                assert(before[i] == pair);
                assert(before.contains(pair));
                let j = choose|j: int| 0 <= j < front.len() && front[j] == pair.1;
                assert(names[j] == pair.1);
            } else {
                assert(names[names.len() - 1] == pair.1);
            }
        }
    }
}

/// The keys and names of rows.
pub open spec fn row_keys(rows: Seq<CategoryRow>) -> Seq<(i64, Seq<char>)> {
    Seq::new(rows.len(), |i: int| (sort_key(rows[i].average), rows[i].category@))
}

/// What a row of the summary holds.
pub struct SummaryRowView {
    pub title: Seq<char>,
    pub average: Option<Amount>,
    pub average_per_day: Option<Amount>,
    pub share_of_income: Option<Amount>,
    pub values: Seq<Option<Amount>>,
}

/// One row of the summary: the average of a value over all periods, what
/// that is for a day and as a share of the average income, and the value in
/// each of the periods that are shown.
#[derive(Debug)]
pub struct SummaryRow {
    pub title: String,
    pub average: Option<Amount>,
    pub average_per_day: Option<Amount>,
    pub share_of_income: Option<Amount>,
    pub values: Vec<Option<Amount>>,
}

impl View for SummaryRow {
    type V = SummaryRowView;

    open spec fn view(&self) -> SummaryRowView {
        SummaryRowView {
            title: self.title@,
            average: self.average,
            average_per_day: self.average_per_day,
            share_of_income: self.share_of_income,
            values: self.values@,
        }
    }
}

/// A thousand times the quotient of an average by the average income.
pub open spec fn share_of_income(average: Option<Amount>, income: Option<Amount>) -> Option<Amount> {
    match (average, income) {
        (Some(average), Some(income)) => match average.spec_checked_div(income) {
            Some(share) => Amount::spec_thousand().spec_checked_mul(share),
            None => None,
        },
        _ => None,
    }
}

/// The row of the summary for the values of all periods.
pub open spec fn summary_of(
    trees: Seq<Tree>,
    columns: nat,
    title: Seq<char>,
    values: Seq<Option<Amount>>,
) -> SummaryRowView {
    SummaryRowView {
        title,
        average: spec_average(values),
        average_per_day: match spec_average(values) {
            Some(average) => average.spec_divided_by(DAYS_IN_MONTH),
            None => None,
        },
        share_of_income: share_of_income(spec_average(values), average_of(trees, income())),
        values: window(values, columns),
    }
}

/// What the row of the percentages holds.
pub struct PercentageRowView {
    pub average: Option<Amount>,
    pub values: Seq<Option<Amount>>,
}

/// The last row of the summary: what was saved as a percentage of what came
/// in, on average over all periods and in each of the periods that are
/// shown.
#[derive(Debug)]
pub struct PercentageRow {
    pub average: Option<Amount>,
    pub values: Vec<Option<Amount>>,
}

impl View for PercentageRow {
    type V = PercentageRowView;

    open spec fn view(&self) -> PercentageRowView {
        PercentageRowView { average: self.average, values: self.values@ }
    }
}

/// The row of the percentages for the values of all periods.
pub open spec fn percentage_row_of(columns: nat, values: Seq<Option<Amount>>) -> PercentageRowView {
    PercentageRowView { average: spec_average(values), values: window(values, columns) }
}

/// What a period spent: the debits of its totals.
pub open spec fn spent_in(totals: Option<TreeTotal>) -> Option<Amount> {
    match totals {
        Some(totals) => Some(totals.debits),
        None => None,
    }
}

/// What each period spent.
pub open spec fn spent_of(totals: Seq<Option<TreeTotal>>) -> Seq<Option<Amount>> {
    Seq::new(totals.len(), |i: int| spent_in(totals[i]))
}

/// What a period spent on other things than the home.
pub open spec fn spent_without_home_in(tree: Tree, totals: Option<TreeTotal>) -> Option<Amount> {
    match (totals, category_total(tree, home())) {
        (Some(totals), Some(home)) => totals.debits.spec_checked_sub(home),
        _ => None,
    }
}

/// What each period spent on other things than the home.
pub open spec fn spent_without_home_of(trees: Seq<Tree>, totals: Seq<Option<TreeTotal>>) -> Seq<
    Option<Amount>,
> {
    Seq::new(totals.len(), |i: int| spent_without_home_in(trees[i], totals[i]))
}

/// What a period saved: the total of its totals.
pub open spec fn saved_in(totals: Option<TreeTotal>) -> Option<Amount> {
    match totals {
        Some(totals) => totals.spec_total(),
        None => None,
    }
}

/// What each period saved.
pub open spec fn saved_of(totals: Seq<Option<TreeTotal>>) -> Seq<Option<Amount>> {
    Seq::new(totals.len(), |i: int| saved_in(totals[i]))
}

/// What a period saved as a percentage of what came in.
pub open spec fn percentage_saved_in(totals: Option<TreeTotal>) -> Option<Amount> {
    match totals {
        Some(totals) => totals.spec_percentage_saved(),
        None => None,
    }
}

/// What each period saved as a percentage of what came in.
pub open spec fn percentages_saved_of(totals: Seq<Option<TreeTotal>>) -> Seq<Option<Amount>> {
    Seq::new(totals.len(), |i: int| percentage_saved_in(totals[i]))
}

/// The comparison as a whole.
#[derive(Debug)]
pub struct CompareReport {
    pub periods: Vec<String>,
    pub income: CategoryRow,
    pub categories: Vec<CategoryRow>,
    pub spent: SummaryRow,
    pub spent_without_home: SummaryRow,
    pub saved: SummaryRow,
    pub percentage_saved: PercentageRow,
}

} // verus!
