use finance_analyzer::amount::Amount;
use finance_analyzer::record::Record;
use finance_analyzer::tree::diff_tree::{CompareOptions, DiffTree};
use finance_analyzer::tree::Tree;
use finance_analyzer::utils::ignored_categories::IgnoredCategories;

fn whole(n: i64) -> Option<Amount> {
    Some(Amount::from_i64(n))
}

fn entry(amount: i64, category: &str) -> Record {
    if amount < 0 {
        Record::new(
            String::from("2024-01-01"),
            String::from("entry"),
            Some(Amount::from_i64(-amount)),
            None,
            Some(String::from(category)),
        )
    } else {
        Record::new(
            String::from("2024-01-01"),
            String::from("entry"),
            None,
            Some(Amount::from_i64(amount)),
            Some(String::from(category)),
        )
    }
}

fn tree(name: &str, entries: &[(i64, &str)]) -> Tree {
    let mut tree = Tree::new(String::from(name));
    for (amount, category) in entries.iter() {
        tree.insert(entry(*amount, category));
    }
    tree
}

#[test]
fn diff_of_two_periods() {
    let trees = vec![
        tree("jan", &[(100, "Income"), (-30, "Zoo"), (-10, "Food"), (-20, "Holiday")]),
        tree("feb", &[(-50, "Art"), (200, "Income"), (-30, "Food")]),
    ];
    let options = CompareOptions::new(IgnoredCategories::new("Holiday"));
    let report = DiffTree::compute_diff(&trees, &options);
    assert_eq!(report.periods, vec!["jan", "feb"]);
    assert_eq!(report.income.category, "Income");
    assert_eq!(report.income.average, whole(150));
    assert_eq!(report.income.totals, vec![whole(100), whole(200)]);
    let names: Vec<&str> = report.categories.iter().map(|row| row.category.as_str()).collect();
    assert_eq!(names, vec!["Art", "Food", "Holiday", "Zoo"]);
    assert_eq!(report.categories[0].average, whole(-25));
    assert_eq!(report.categories[0].totals, vec![whole(0), whole(-50)]);
    assert_eq!(report.categories[1].average, whole(-20));
    assert_eq!(report.categories[3].totals, vec![whole(-30), whole(0)]);
    // the entries of the holiday are left out of what was saved
    assert_eq!(report.saved.values, vec![whole(60), whole(120)]);
    assert_eq!(report.saved.average, whole(90));
    assert_eq!(report.percentage.values, vec![whole(60), whole(60)]);
    assert_eq!(report.percentage.average, whole(60));
}

#[test]
fn diff_of_no_period() {
    let report = DiffTree::compute_diff(&Vec::new(), &CompareOptions::new(IgnoredCategories::default()));
    assert!(report.periods.is_empty());
    assert!(report.categories.is_empty());
    assert_eq!(report.income.average, None);
    assert_eq!(report.saved.average, None);
    assert_eq!(report.percentage.average, None);
}

#[test]
fn diff_row_of_a_category() {
    let trees = vec![tree("jan", &[(-20, "Misc")]), tree("feb", &[(1, "Income")])];
    let row = DiffTree::output_category(&trees, &String::from("Misc"));
    assert_eq!(row.category, "Misc");
    assert_eq!(row.average, whole(-10));
    assert_eq!(row.totals, vec![whole(-20), whole(0)]);
    assert_eq!(DiffTree::output_average(&trees, &String::from("Income")), Some(Amount::new(5, 1).unwrap()));
    assert_eq!(DiffTree::output_average(&trees, &String::from("None")), whole(0));
}
