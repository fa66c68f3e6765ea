//! The report on one ledger.

use crate::tree::total_tree::TreeTotal;
use crate::tree::Tree;
use crate::utils::ignored_categories::IgnoredCategories;
use crate::utils::{line_views, lines_of, node_key, print_tree, rules_of, AnalyzeOptions, TreeLine};
use vstd::prelude::*;

verus! {

/// Arguments for analyzing a CSV file with the finance statements.
#[derive(Debug)]
pub struct AnalyzeArgs {
    pub filename: String,
    pub print_items: bool,
    pub ignored_categories: String,
    pub hide_ignored: bool,
    pub depth: Option<usize>,
}

/// The options that the arguments ask for. `ignored` is the text of the file
/// that names the categories to ignore, one on each line.
pub fn options(args: &AnalyzeArgs, ignored: &str) -> (r: AnalyzeOptions)
    ensures
        r.ignored_categories@ == crate::text::lines_of(ignored@).to_set(),
        r.print_items == args.print_items,
        r.hide_ignored == args.hide_ignored,
        r.depth == args.depth,
{
    AnalyzeOptions::new(
        IgnoredCategories::new(ignored),
        args.print_items,
        args.hide_ignored,
        args.depth,
    )
}

/// The report on one ledger.
#[derive(Debug)]
pub struct AnalyzeReport {
    /// The name of the ledger.
    pub name: String,
    /// One line for each category that is reported on.
    pub lines: Vec<TreeLine>,
    /// The totals of the whole ledger.
    pub total: TreeTotal,
}

/// The report on the ledger of a tree: its name, the lines of its categories
/// and its totals. There is none where the totals cannot be had, because a
/// sum on the way is not exact.
pub fn run(tree: &Tree, opts: &AnalyzeOptions) -> (r: Option<AnalyzeReport>)
    ensures
        match (r, TreeTotal::tally(tree.root().all_entries(), opts.ignored_categories@)) {
            (Some(report), Some(total)) => {
                &&& report.name@ == tree.label()
                &&& report.total == total
                &&& line_views(report.lines@) == lines_of(
                    tree.root().sorted_walk_below(node_key(), tree.root().kids().len(), 0),
                    rules_of(total, *opts),
                )
            },
            (None, None) => true,
            _ => false,
        },
{
    match TreeTotal::create_from(tree, opts.ignored_categories()) {
        Some(total) => Some(
            AnalyzeReport {
                name: tree.get_name().clone(),
                lines: print_tree(tree, &total, opts),
                total,
            },
        ),
        None => None,
    }
}

} // verus!
