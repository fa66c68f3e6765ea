//! The ledgers of several periods side by side, category by category.

use crate::amount::Amount;
use crate::record::same_text;
use crate::text::{text_le, views};
use crate::tree::compare_tree::{
    average, categories_of, category_totals, category_totals_in, category_union, income, keyed,
    labels, pair_le, percentage_saved_in, saved_in, sorted_pairs, spec_average, totals_of,
};
use crate::tree::total_tree::TreeTotal;
use crate::tree::Tree;
use crate::utils::ignored_categories::IgnoredCategories;
use vstd::prelude::*;

verus! {

/// How the ledgers are set side by side.
pub struct CompareOptions {
    pub ignored_categories: IgnoredCategories,
}

impl CompareOptions {
    /// The options of these parts.
    pub fn new(ignored_categories: IgnoredCategories) -> (r: CompareOptions)
        ensures
            r.ignored_categories == ignored_categories,
    {
        CompareOptions { ignored_categories }
    }
}

/// What a row holds.
pub struct DiffRowView {
    pub category: Seq<char>,
    pub average: Option<Amount>,
    pub totals: Seq<Option<Amount>>,
}

/// One row: a category with its average over the periods and its total in
/// each period.
#[derive(Debug)]
pub struct DiffRow {
    pub category: String,
    pub average: Option<Amount>,
    pub totals: Vec<Option<Amount>>,
}

impl View for DiffRow {
    type V = DiffRowView;

    open spec fn view(&self) -> DiffRowView {
        DiffRowView { category: self.category@, average: self.average, totals: self.totals@ }
    }
}

/// The row of a category.
pub open spec fn diff_row_of(trees: Seq<Tree>, name: Seq<char>) -> DiffRowView {
    DiffRowView {
        category: name,
        average: spec_average(category_totals(trees, name)),
        totals: category_totals(trees, name),
    }
}

/// The names of `names` but that of the income, each with the key zero.
pub open spec fn other_categories(names: Seq<Seq<char>>) -> Seq<(i64, Seq<char>)>
    decreases names.len(),
{
    if names.len() == 0 {
        Seq::empty()
    } else {
        let before = other_categories(names.drop_last());
        if names.last() != income() {
            before.push((0i64, names.last()))
        } else {
            before
        }
    }
}

/// The names of rows, each with the key zero.
pub open spec fn row_names(rows: Seq<DiffRow>) -> Seq<(i64, Seq<char>)> {
    Seq::new(rows.len(), |i: int| (0i64, rows[i].category@))
}

/// What the last rows hold: a value on average over the periods and in each
/// period.
pub struct DiffSummaryView {
    pub average: Option<Amount>,
    pub values: Seq<Option<Amount>>,
}

/// One of the last rows.
#[derive(Debug)]
pub struct DiffSummary {
    pub average: Option<Amount>,
    pub values: Vec<Option<Amount>>,
}

impl View for DiffSummary {
    type V = DiffSummaryView;

    open spec fn view(&self) -> DiffSummaryView {
        DiffSummaryView { average: self.average, values: self.values@ }
    }
}

/// The row of the values of all periods.
pub open spec fn diff_summary_of(values: Seq<Option<Amount>>) -> DiffSummaryView {
    DiffSummaryView { average: spec_average(values), values }
}

/// The ledgers side by side.
#[derive(Debug)]
pub struct DiffReport {
    pub periods: Vec<String>,
    pub income: DiffRow,
    pub categories: Vec<DiffRow>,
    pub saved: DiffSummary,
    pub percentage: DiffSummary,
}

/// Sets the ledgers of several periods side by side.
#[derive(Debug, Default)]
pub struct DiffTree;

impl DiffTree {
    /// The ledgers side by side: the names of the periods; the row of the
    /// income; the rows of the other categories directly below the roots of
    /// the trees, in the order of their names; what each period saved, and
    /// what that is as a percentage of what came in.
    pub fn compute_diff(trees: &Vec<Tree>, options: &CompareOptions) -> (r: DiffReport)
        ensures
            views(r.periods@) == labels(trees@),
            r.income@ == diff_row_of(trees@, income()),
            forall|i: int|
                0 <= i < r.categories.len() ==> (#[trigger] r.categories[i])@ == diff_row_of(
                    trees@,
                    r.categories[i].category@,
                ),
            row_names(r.categories@).to_multiset() == other_categories(
                category_union(trees@),
            ).to_multiset(),
            forall|i: int, j: int|
                0 <= i < j < r.categories.len() ==> text_le(
                    r.categories[i].category@,
                    r.categories[j].category@,
                ),
            r.saved@ == diff_summary_of(
                Seq::new(
                    trees@.len(),
                    |i: int| saved_in(totals_of(trees@, options.ignored_categories@)[i]),
                ),
            ),
            r.percentage@ == diff_summary_of(
                Seq::new(
                    trees@.len(),
                    |i: int| percentage_saved_in(totals_of(trees@, options.ignored_categories@)[i]),
                ),
            ),
    {
        let n = trees.len();
        let mut periods: Vec<String> = Vec::new();
        let mut saved: Vec<Option<Amount>> = Vec::new();
        let mut percentages: Vec<Option<Amount>> = Vec::new();
        let mut i: usize = 0;
        while i < n
            invariant
                n == trees.len(),
                i <= n,
                periods.len() == i,
                saved.len() == i,
                percentages.len() == i,
                forall|j: int| 0 <= j < i ==> periods@[j]@ == trees@[j].label(),
                forall|j: int|
                    0 <= j < i ==> saved@[j] == saved_in(
                        totals_of(trees@, options.ignored_categories@)[j],
                    ),
                forall|j: int|
                    0 <= j < i ==> percentages@[j] == percentage_saved_in(
                        totals_of(trees@, options.ignored_categories@)[j],
                    ),
            decreases n - i,
        {
            periods.push(trees[i].get_name().clone());
            let totals = TreeTotal::create_from(&trees[i], &options.ignored_categories);
            saved.push(
                match totals {
                    Some(totals) => totals.total(),
                    None => None,
                },
            );
            percentages.push(
                match totals {
                    Some(totals) => totals.percentage_saved(),
                    None => None,
                },
            );
            i = i + 1;
        }
        assert(views(periods@) =~= labels(trees@));
        assert(saved@ =~= Seq::new(
            trees@.len(),
            |i: int| saved_in(totals_of(trees@, options.ignored_categories@)[i]),
        ));
        assert(percentages@ =~= Seq::new(
            trees@.len(),
            |i: int| percentage_saved_in(totals_of(trees@, options.ignored_categories@)[i]),
        ));
        let income = String::from_str("Income");
        let names = categories_of(trees);
        let mut pairs: Vec<(i64, String)> = Vec::new();
        let m = names.len();
        let mut k: usize = 0;
        assert(views(names@).take(0) == Seq::<Seq<char>>::empty());
        assert(keyed(pairs@) == Seq::<(i64, Seq<char>)>::empty());
        while k < m
            invariant
                m == names.len(),
                k <= m,
                income@ == "Income"@,
                keyed(pairs@) == other_categories(views(names@).take(k as int)),
            decreases m - k,
        {
            proof {
                assert(views(names@).take(k + 1).drop_last() == views(names@).take(k as int));
                assert(views(names@).take(k + 1).last() == names@[k as int]@);
            }
            if !same_text(&names[k], &income) {
                let ghost before = keyed(pairs@);
                pairs.push((0, names[k].clone()));
                assert(keyed(pairs@) == before.push((0i64, names@[k as int]@)));
            }
            k = k + 1;
        }
        assert(views(names@).take(m as int) == views(names@));
        let ghost wanted = keyed(pairs@);
        let sorted = sorted_pairs(pairs);
        let mut rows: Vec<DiffRow> = Vec::new();
        let count = sorted.len();
        let mut j: usize = 0;
        while j < count
            invariant
                count == sorted.len(),
                j <= count,
                rows.len() == j,
                forall|p: int|
                    0 <= p < j ==> (#[trigger] rows[p])@ == diff_row_of(trees@, sorted@[p].1@),
            decreases count - j,
        {
            rows.push(Self::output_category(trees, &sorted[j].1));
            j = j + 1;
        }
        proof {
            Self::lemma_other_categories(category_union(trees@));
            assert forall|p: int| 0 <= p < count implies row_names(rows@)[p] == keyed(
                sorted@,
            )[p] by {
                let pair = keyed(sorted@)[p];
                assert(keyed(sorted@).contains(pair));
                vstd::seq_lib::to_multiset_contains(keyed(sorted@), pair);
                vstd::seq_lib::to_multiset_contains(wanted, pair);
                assert(wanted.contains(pair));
            }
            assert(row_names(rows@) =~= keyed(sorted@));
            assert forall|a: int, b: int| 0 <= a < b < rows.len() implies text_le(
                rows[a].category@,
                rows[b].category@,
            ) by {
                assert(keyed(sorted@)[a] == row_names(rows@)[a]);
                assert(keyed(sorted@)[b] == row_names(rows@)[b]);
                assert(pair_le(keyed(sorted@)[a], keyed(sorted@)[b]));
            }
        }
        DiffReport {
            periods,
            income: Self::output_category(trees, &income),
            categories: rows,
            saved: DiffSummary { average: average(&saved), values: saved },
            percentage: DiffSummary { average: average(&percentages), values: percentages },
        }
    }

    /// All of the other categories have the key zero.
    proof fn lemma_other_categories(names: Seq<Seq<char>>)
        ensures
            forall|pair: (i64, Seq<char>)| #[trigger]
                other_categories(names).contains(pair) ==> pair.0 == 0,
        decreases names.len(),
    {
        if names.len() > 0 {
            Self::lemma_other_categories(names.drop_last());
            let before = other_categories(names.drop_last());
            assert forall|pair: (i64, Seq<char>)| #[trigger]
                other_categories(names).contains(pair) implies pair.0 == 0 by {
                let all = other_categories(names);
                let i = choose|i: int| 0 <= i < all.len() && all[i] == pair;
                if i < before.len() {
                    assert(before[i] == pair);
                    assert(before.contains(pair));
                }
            }
        }
    }

    /// The row of the category: its average over the periods and its total
    /// in each period, where a tree without the category counts as zero.
    pub fn output_category(trees: &Vec<Tree>, category: &String) -> (r: DiffRow)
        ensures
            r@ == diff_row_of(trees@, category@),
    {
        DiffRow {
            category: category.clone(),
            average: Self::output_average(trees, category),
            totals: category_totals_in(trees, category),
        }
    }

    /// The average of the category over the periods, where a tree without
    /// the category counts as zero.
    pub fn output_average(trees: &Vec<Tree>, category: &String) -> (r: Option<Amount>)
        ensures
            r == spec_average(category_totals(trees@, category@)),
    {
        let totals = category_totals_in(trees, category);
        average(&totals)
    }
}

} // verus!
