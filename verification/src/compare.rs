//! The report that compares the ledgers of several periods.

use crate::tree::compare_tree::{CompareOptions, CompareReport, CompareTree};
use crate::tree::Tree;
use crate::utils::ignored_categories::IgnoredCategories;
use vstd::prelude::*;

verus! {

/// Arguments for comparing multiple of files.
#[derive(Debug)]
pub struct CompareArgs {
    pub files: Vec<String>,
    pub ignored_categories: String,
    pub hide_ignored_categories: bool,
    pub number_of_colunms: usize,
}

/// The options that the arguments ask for. `ignored` is the text of the file
/// that names the categories to ignore, one on each line.
pub fn options(args: &CompareArgs, ignored: &str) -> (r: CompareOptions)
    ensures
        r.ignored_categories@ == crate::text::lines_of(ignored@).to_set(),
        r.hide_ignored_categories == args.hide_ignored_categories,
        r.number_of_columns == args.number_of_colunms,
{
    CompareOptions::new(
        IgnoredCategories::new(ignored),
        args.hide_ignored_categories,
        args.number_of_colunms,
    )
}

/// The comparison of the ledgers of several periods, the oldest first.
pub fn run(trees: &Vec<Tree>, options: CompareOptions) -> (r: CompareReport)
    ensures
        CompareTree::reports(trees@, options, r),
{
    let compare_tree = CompareTree::new(trees, options);
    compare_tree.report()
}

} // verus!
