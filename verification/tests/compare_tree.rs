use finance_analyzer::amount::Amount;
use finance_analyzer::compare::{options, run, CompareArgs};
use finance_analyzer::record::Record;
use finance_analyzer::tree::compare_tree::{
    average, categories_of, category_total_in, category_totals_in, last_amounts, position_of,
    CompareOptions, CompareTree,
};
use finance_analyzer::tree::Tree;
use finance_analyzer::utils::ignored_categories::IgnoredCategories;

fn amount(mantissa: i128, scale: u32) -> Amount {
    Amount::new(mantissa, scale).unwrap()
}

fn whole(n: i64) -> Option<Amount> {
    Some(Amount::from_i64(n))
}

fn entry(amount: i64, category: &str) -> Record {
    if amount < 0 {
        Record::new(
            String::from("2024-01-01"),
            String::from("entry"),
            Some(Amount::from_i64(-amount)),
            None,
            Some(String::from(category)),
        )
    } else {
        Record::new(
            String::from("2024-01-01"),
            String::from("entry"),
            None,
            Some(Amount::from_i64(amount)),
            Some(String::from(category)),
        )
    }
}

fn tree(name: &str, entries: &[(i64, &str)]) -> Tree {
    let mut tree = Tree::new(String::from(name));
    for (amount, category) in entries.iter() {
        tree.insert(entry(*amount, category));
    }
    tree
}

fn plain(columns: usize) -> CompareOptions {
    CompareOptions::new(IgnoredCategories::default(), false, columns)
}

#[test]
fn average_income_of_two_periods() {
    let trees = vec![tree("a", &[(100, "Income")]), tree("b", &[(200, "Income")])];
    let compare = CompareTree::new(&trees, plain(12));
    let income = String::from("Income");
    assert_eq!(compare.output_average(&income), whole(150));
    assert_eq!(compare.output_average_per_day(&income), whole(5));
    assert_eq!(compare.output_percentage(&income), whole(100));
}

#[test]
fn category_that_a_tree_lacks_counts_as_zero() {
    let trees = vec![tree("a", &[(-20, "Misc")]), tree("b", &[(10, "Income")])];
    let compare = CompareTree::new(&trees, plain(12));
    assert_eq!(compare.output_average(&String::from("Misc")), whole(-10));
    assert_eq!(category_total_in(&trees[1], &String::from("Misc")), whole(0));
    assert_eq!(
        category_totals_in(&trees, &String::from("Misc")),
        vec![whole(-20), whole(0)]
    );
}

#[test]
fn category_that_no_tree_has_is_zero() {
    let trees = vec![tree("a", &[(100, "Income")])];
    let compare = CompareTree::new(&trees, plain(12));
    let other = String::from("Other");
    assert_eq!(compare.output_average(&other), whole(0));
    assert_eq!(compare.output_average_per_day(&other), whole(0));
    assert_eq!(compare.output_percentage(&other), whole(0));
}

#[test]
fn percentage_without_income_is_none() {
    let trees = vec![tree("a", &[(-20, "Misc")])];
    let compare = CompareTree::new(&trees, plain(12));
    assert_eq!(compare.output_percentage(&String::from("Misc")), None);
    let none: Vec<Tree> = Vec::new();
    let compare = CompareTree::new(&none, plain(12));
    assert_eq!(compare.output_average(&String::from("Income")), whole(0));
    assert_eq!(compare.output_percentage(&String::from("Income")), None);
}

#[test]
fn percentage_is_of_the_average_income() {
    let trees = vec![
        tree("a", &[(100, "Income"), (-30, "Home/Rent"), (-10, "Home/Utilities")]),
        tree("b", &[(300, "Income"), (-60, "Home/Rent")]),
    ];
    let compare = CompareTree::new(&trees, plain(12));
    // the average of Home is -50, that of the income 200
    assert_eq!(compare.output_percentage(&String::from("Home")), whole(25));
    let row = compare.output_category(&String::from("Home"));
    assert_eq!(row.category, "Home");
    assert_eq!(row.average, whole(-50));
    assert_eq!(row.average_per_day, Amount::from_i64(-50).checked_div(&Amount::from_i64(30)));
    assert_eq!(row.percentage, whole(25));
    assert_eq!(row.totals, vec![whole(-40), whole(-60)]);
}

#[test]
fn average_of_a_row() {
    assert_eq!(average(&vec![whole(1), whole(2), whole(6)]), whole(3));
    assert_eq!(average(&vec![whole(1), None, whole(6)]), None);
    assert_eq!(average(&Vec::new()), None);
    assert_eq!(average(&vec![whole(1), whole(2)]), Some(amount(15, 1)));
}

#[test]
fn last_amounts_keep_their_order() {
    let row = vec![whole(1), whole(2), whole(3)];
    assert_eq!(last_amounts(&row, 2), vec![whole(2), whole(3)]);
    assert_eq!(last_amounts(&row, 3), row);
    assert_eq!(last_amounts(&row, 12), row);
    assert_eq!(last_amounts(&row, 0), Vec::new());
}

#[test]
fn categories_are_those_below_the_roots() {
    let trees = vec![
        tree("a", &[(100, "Income"), (-30, "Home/Rent")]),
        tree("b", &[(-1, "Food"), (300, "Income"), (-1, "Home/Garden"), (-1, "")]),
    ];
    assert_eq!(categories_of(&trees), vec!["Income", "Home", "Food"]);
    assert_eq!(categories_of(&Vec::new()), Vec::<String>::new());
    let names = vec![String::from("a"), String::from("b"), String::from("a")];
    assert_eq!(position_of(&names, &String::from("a")), Some(0));
    assert_eq!(position_of(&names, &String::from("b")), Some(1));
    assert_eq!(position_of(&names, &String::from("c")), None);
}

#[test]
fn categories_are_sorted_by_rounded_average_then_by_name() {
    let trees = vec![tree(
        "a",
        &[
            (100, "Income"),
            (-5, "Zoo"),
            (-5, "Books"),
            (-80, "Home"),
            (3, "Gifts"),
            (-5, "Music"),
        ],
    )];
    let compare = CompareTree::new(&trees, plain(12));
    let sorted = compare.sorted_categories();
    let names: Vec<&str> = sorted.iter().map(|pair| pair.1.as_str()).collect();
    assert_eq!(names, vec!["Home", "Books", "Music", "Zoo", "Gifts"]);
    let keys: Vec<i64> = sorted.iter().map(|pair| pair.0).collect();
    assert_eq!(keys, vec![-80, -5, -5, -5, 3]);
}

#[test]
fn ignored_categories_are_hidden_on_demand() {
    let trees = vec![tree("a", &[(100, "Income"), (-5, "Zoo"), (-9, "Holiday")])];
    let hide = CompareOptions::new(IgnoredCategories::new("Holiday"), true, 12);
    let names: Vec<String> =
        CompareTree::new(&trees, hide).sorted_categories().into_iter().map(|p| p.1).collect();
    assert_eq!(names, vec!["Zoo"]);
    let show = CompareOptions::new(IgnoredCategories::new("Holiday"), false, 12);
    let names: Vec<String> =
        CompareTree::new(&trees, show).sorted_categories().into_iter().map(|p| p.1).collect();
    assert_eq!(names, vec!["Holiday", "Zoo"]);
}

#[test]
fn report_of_three_periods_in_two_columns() {
    let trees = vec![
        tree("jan", &[(100, "Income"), (-30, "Home/Rent"), (-10, "Food")]),
        tree("feb", &[(200, "Income"), (-30, "Home/Rent"), (-20, "Food")]),
        tree("mar", &[(300, "Income"), (-60, "Home/Rent"), (-30, "Food"), (-90, "Car")]),
    ];
    let report = CompareTree::new(&trees, plain(2)).report();
    assert_eq!(report.periods, vec!["feb", "mar"]);
    assert_eq!(report.income.category, "Income");
    assert_eq!(report.income.average, whole(200));
    assert_eq!(report.income.totals, vec![whole(200), whole(300)]);
    let names: Vec<&str> = report.categories.iter().map(|row| row.category.as_str()).collect();
    assert_eq!(names, vec!["Home", "Car", "Food"]);
    assert_eq!(report.categories[0].average, whole(-40));
    assert_eq!(report.categories[0].totals, vec![whole(-30), whole(-60)]);
    assert_eq!(report.categories[1].average, whole(-30));
    assert_eq!(report.categories[1].average_per_day, whole(-1));
    assert_eq!(report.categories[1].percentage, whole(15));
    assert_eq!(report.categories[1].totals, vec![whole(0), whole(-90)]);
    assert_eq!(report.categories[2].average, whole(-20));

    assert_eq!(report.spent.title, "Spent");
    assert_eq!(report.spent.average, whole(-90));
    assert_eq!(report.spent.average_per_day, whole(-3));
    assert_eq!(report.spent.share_of_income, whole(-450));
    assert_eq!(report.spent.values, vec![whole(-50), whole(-180)]);

    assert_eq!(report.spent_without_home.title, "Spent without home");
    assert_eq!(report.spent_without_home.average, whole(-50));
    assert_eq!(report.spent_without_home.values, vec![whole(-20), whole(-120)]);

    assert_eq!(report.saved.title, "Saved");
    assert_eq!(report.saved.average, whole(110));
    assert_eq!(report.saved.values, vec![whole(150), whole(120)]);

    assert_eq!(report.percentage_saved.values, vec![whole(75), whole(40)]);
    assert_eq!(report.percentage_saved.average, whole(175).unwrap().checked_div(&Amount::from_i64(3)));
}

#[test]
fn tree_without_home_spent_nothing_on_it() {
    let trees = vec![tree("jan", &[(100, "Income"), (-10, "Food")])];
    let compare = CompareTree::new(&trees, plain(12));
    assert_eq!(compare.spent(), vec![whole(-10)]);
    assert_eq!(compare.spent_without_home(), vec![whole(-10)]);
    assert_eq!(compare.saved(), vec![whole(90)]);
    assert_eq!(compare.percentages_saved(), vec![whole(90)]);
    assert_eq!(compare.periods(), vec!["jan"]);
}

#[test]
fn summary_row_of_values() {
    let trees = vec![tree("jan", &[(50, "Income")]), tree("feb", &[(150, "Income")])];
    let compare = CompareTree::new(&trees, plain(1));
    let row = compare.write_summary_row("Row", &vec![whole(-30), whole(-90)]);
    assert_eq!(row.title, "Row");
    assert_eq!(row.average, whole(-60));
    assert_eq!(row.average_per_day, whole(-2));
    assert_eq!(row.share_of_income, whole(-600));
    assert_eq!(row.values, vec![whole(-90)]);
    let row = compare.write_summary_row("Row", &Vec::new());
    assert_eq!(row.average, None);
    assert_eq!(row.average_per_day, None);
    assert_eq!(row.share_of_income, None);
    assert_eq!(row.values, Vec::new());
}

#[test]
fn report_of_no_period() {
    let trees: Vec<Tree> = Vec::new();
    let report = CompareTree::new(&trees, plain(12)).report();
    assert!(report.periods.is_empty());
    assert!(report.categories.is_empty());
    assert_eq!(report.income.average, whole(0));
    assert_eq!(report.income.percentage, None);
    assert!(report.income.totals.is_empty());
    assert_eq!(report.spent.average, None);
    assert_eq!(report.percentage_saved.average, None);
}

#[test]
fn compute_averages_follows_the_categories() {
    let trees = vec![tree("a", &[(100, "Income"), (-20, "Misc")]), tree("b", &[(200, "Income")])];
    let categories = vec![String::from("Misc"), String::from("Income"), String::from("None")];
    assert_eq!(
        CompareTree::compute_averages(&trees, &categories),
        vec![whole(-10), whole(150), whole(0)]
    );
}

#[test]
fn run_compares_with_the_options_of_the_arguments() {
    let args = CompareArgs {
        files: vec![String::from("jan_a.csv"), String::from("feb_a.csv")],
        ignored_categories: String::from("ignored_categories.txt"),
        hide_ignored_categories: true,
        number_of_colunms: 1,
    };
    let trees = vec![
        tree("jan", &[(100, "Income"), (-10, "Food"), (-5, "Holiday")]),
        tree("feb", &[(100, "Income"), (-30, "Food")]),
    ];
    let report = run(&trees, options(&args, "Holiday\n"));
    assert_eq!(report.periods, vec!["feb"]);
    let names: Vec<&str> = report.categories.iter().map(|row| row.category.as_str()).collect();
    assert_eq!(names, vec!["Food"]);
    assert_eq!(report.spent.values, vec![whole(-30)]);
    assert_eq!(report.spent.average, whole(-20));
}
