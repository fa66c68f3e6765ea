use finance_analyzer::amount::Amount;
use finance_analyzer::analyze::{options, run, AnalyzeArgs};
use finance_analyzer::calc::{answered_category, get_category};
use finance_analyzer::record::Record;
use finance_analyzer::tree::total_tree::TreeTotal;
use finance_analyzer::tree::Tree;
use finance_analyzer::utils::ignored_categories::IgnoredCategories;
use finance_analyzer::utils::{
    format_with_color, items_by_description, key_of_node, print_tree, AnalyzeOptions, Lookup, Tint,
};

fn whole(n: i64) -> Option<Amount> {
    Some(Amount::from_i64(n))
}

fn entry(amount: i64, category: &str, description: &str) -> Record {
    if amount < 0 {
        Record::new(
            String::from("2024-01-01"),
            String::from(description),
            Some(Amount::from_i64(-amount)),
            None,
            Some(String::from(category)),
        )
    } else {
        Record::new(
            String::from("2024-01-01"),
            String::from(description),
            None,
            Some(Amount::from_i64(amount)),
            Some(String::from(category)),
        )
    }
}

fn sample() -> Tree {
    let mut tree = Tree::new(String::from("jan"));
    tree.insert(entry(200, "Income", "Wages"));
    tree.insert(entry(-30, "Home/Rent", "Landlord"));
    tree.insert(entry(-10, "Home/Utilities", "Water"));
    tree.insert(entry(-10, "Home/Utilities", "Power"));
    tree.insert(entry(-5, "Home/Utilities", "Water"));
    tree.insert(entry(-20, "Holiday/Flight", "Airline"));
    tree
}

fn lines(tree: &Tree, opts: &AnalyzeOptions) -> Vec<(usize, String, Option<Amount>, Option<Amount>, bool)> {
    let total = TreeTotal::create_from(tree, opts.ignored_categories()).unwrap();
    print_tree(tree, &total, opts)
        .into_iter()
        .map(|line| (line.depth, line.category, line.total, line.percentage, line.ignored))
        .collect()
}

#[test]
fn lines_are_sorted_by_total_at_each_level() {
    let tree = sample();
    let opts = AnalyzeOptions::new(IgnoredCategories::default(), false, true, None);
    assert_eq!(
        lines(&tree, &opts),
        vec![
            (0, String::from("Home"), whole(-55), Some(Amount::new(275, 1).unwrap()), false),
            (1, String::from("Rent"), whole(-30), whole(15), false),
            (1, String::from("Utilities"), whole(-25), Some(Amount::new(125, 1).unwrap()), false),
            (0, String::from("Holiday"), whole(-20), whole(10), false),
            (1, String::from("Flight"), whole(-20), whole(10), false),
            (0, String::from("Income"), whole(200), whole(100), false),
        ]
    );
}

#[test]
fn lines_stop_at_the_depth_that_is_asked_for() {
    let tree = sample();
    let opts = AnalyzeOptions::new(IgnoredCategories::default(), false, true, Some(1));
    let names: Vec<String> = lines(&tree, &opts).into_iter().map(|line| line.1).collect();
    assert_eq!(names, vec!["Home", "Holiday", "Income"]);
    let opts = AnalyzeOptions::new(IgnoredCategories::default(), false, true, Some(0));
    assert!(lines(&tree, &opts).is_empty());
    let opts = AnalyzeOptions::new(IgnoredCategories::default(), false, true, Some(2));
    assert_eq!(lines(&tree, &opts).len(), 6);
}

#[test]
fn ignored_categories_are_marked_or_hidden() {
    let tree = sample();
    let marked = AnalyzeOptions::new(IgnoredCategories::new("Holiday\nRent"), false, false, None);
    let found = lines(&tree, &marked);
    let flagged: Vec<(String, bool)> = found.iter().map(|line| (line.1.clone(), line.4)).collect();
    assert_eq!(
        flagged,
        vec![
            (String::from("Home"), false),
            (String::from("Rent"), true),
            (String::from("Utilities"), false),
            (String::from("Holiday"), true),
            (String::from("Flight"), false),
            (String::from("Income"), false),
        ]
    );
    let hidden = AnalyzeOptions::new(IgnoredCategories::new("Holiday\nRent"), false, true, None);
    let names: Vec<String> = lines(&tree, &hidden).into_iter().map(|line| line.1).collect();
    assert_eq!(names, vec!["Home", "Utilities", "Flight", "Income"]);
}

#[test]
fn percentage_without_credits_is_none() {
    let mut tree = Tree::new(String::from("t"));
    tree.insert(entry(-5, "Food", "Baker"));
    let opts = AnalyzeOptions::new(IgnoredCategories::default(), false, true, None);
    assert_eq!(lines(&tree, &opts), vec![(0, String::from("Food"), whole(-5), None, false)]);
}

#[test]
fn items_are_listed_by_description() {
    let tree = sample();
    let opts = AnalyzeOptions::new(IgnoredCategories::default(), true, true, None);
    let total = TreeTotal::create_from(&tree, opts.ignored_categories()).unwrap();
    let found = print_tree(&tree, &total, &opts);
    let utilities = &found[2];
    assert_eq!(utilities.category, "Utilities");
    let items: Vec<(&str, Option<Amount>)> =
        utilities.items.iter().map(|item| (item.description.as_str(), item.amount)).collect();
    assert_eq!(items, vec![("Water", whole(-15)), ("Power", whole(-10))]);
    assert!(found[0].items.is_empty());
    let quiet = AnalyzeOptions::new(IgnoredCategories::default(), false, true, None);
    assert!(print_tree(&tree, &total, &quiet)[2].items.is_empty());
}

#[test]
fn items_of_a_list_of_entries() {
    let entries = vec![
        entry(-1, "A", "x"),
        entry(-2, "B", "y"),
        entry(5, "C", "x"),
        entry(-2, "D", "y"),
        entry(0, "E", "z"),
    ];
    let items: Vec<(String, Option<Amount>)> =
        items_by_description(&entries).into_iter().map(|item| (item.description, item.amount)).collect();
    assert_eq!(
        items,
        vec![
            (String::from("x"), whole(4)),
            (String::from("y"), whole(-4)),
            (String::from("z"), whole(0)),
        ]
    );
    assert!(items_by_description(&Vec::new()).is_empty());
}

#[test]
fn key_of_a_node_is_the_floor_of_its_total() {
    let mut tree = Tree::new(String::from("t"));
    tree.insert(Record::new(
        String::new(),
        String::new(),
        Some(Amount::new(25, 1).unwrap()),
        None,
        Some(String::from("A")),
    ));
    let a = tree.get_root().child(&String::from("A")).unwrap();
    assert_eq!(key_of_node(a), -3);
    assert_eq!(key_of_node(tree.get_root()), -3);
    assert_eq!(key_of_node(Tree::default().get_root()), 0);
}

#[test]
fn options_hand_out_what_they_were_made_with() {
    let opts = AnalyzeOptions::new(IgnoredCategories::new("Holiday"), true, false, Some(3));
    assert!(opts.ignored_categories().contains(&String::from("Holiday")));
    assert_eq!(opts.print_items(), &true);
    assert_eq!(opts.hide_ignored(), &false);
    assert_eq!(opts.depth(), &Some(3));
}

#[test]
fn run_reports_on_a_ledger() {
    let args = AnalyzeArgs {
        filename: String::from("jan_2024.csv"),
        print_items: false,
        ignored_categories: String::from("ignored_categories.txt"),
        hide_ignored: true,
        depth: Some(1),
    };
    let opts = options(&args, "Holiday\n");
    let tree = sample();
    let report = run(&tree, &opts).unwrap();
    assert_eq!(report.name, "jan");
    assert_eq!(report.total.credits(), &Amount::from_i64(200));
    assert_eq!(report.total.debits(), &Amount::from_i64(-75));
    let names: Vec<&str> = report.lines.iter().map(|line| line.category.as_str()).collect();
    assert_eq!(names, vec!["Home", "Income"]);
}

#[test]
fn run_without_totals_reports_nothing() {
    let most = Amount::new(79_228_162_514_264_337_593_543_950_335, 0).unwrap();
    let big = Record::new(String::new(), String::new(), None, Some(most), None);
    let mut tree = Tree::default();
    tree.insert(big.clone());
    tree.insert(big);
    let opts = AnalyzeOptions::new(IgnoredCategories::default(), false, true, None);
    assert!(run(&tree, &opts).is_none());
}

#[test]
fn lookup_remembers_the_last_category_of_a_description() {
    let mut lookup = Lookup::new();
    assert!(lookup.entries().is_empty());
    assert_eq!(lookup.get(&String::from("Baker")), None);
    lookup.insert(String::from("Baker"), String::from("Food"));
    lookup.insert(String::from("Train"), String::from("Travel"));
    lookup.insert(String::from("Baker"), String::from("Food/Bread"));
    assert_eq!(lookup.get(&String::from("Baker")), Some(&String::from("Food/Bread")));
    assert_eq!(lookup.get(&String::from("Train")), Some(&String::from("Travel")));
    assert_eq!(lookup.get(&String::from("Bus")), None);
    assert_eq!(
        lookup.entries(),
        &vec![
            (String::from("Baker"), String::from("Food/Bread")),
            (String::from("Train"), String::from("Travel")),
        ]
    );
    assert!(Lookup::default().entries().is_empty());
}

#[test]
fn category_comes_from_the_lookup() {
    let mut lookup = Lookup::new();
    lookup.insert(String::from("Baker"), String::from("Food"));
    assert_eq!(get_category(&entry(-1, "x", "Baker"), &lookup), Some(String::from("Food")));
    assert_eq!(get_category(&entry(-1, "x", "Butcher"), &lookup), None);
    assert_eq!(answered_category("  Food/Meat \n"), "Food/Meat");
}

#[test]
fn amounts_below_zero_are_red() {
    let below = Amount::new(-1250, 2).unwrap();
    assert_eq!(format_with_color(&below, 1), Some((String::from("-12.5"), Tint::Red)));
    let above = Amount::new(1250, 2).unwrap();
    assert_eq!(format_with_color(&above, 0), Some((String::from("12"), Tint::Green)));
    assert_eq!(format_with_color(&Amount::zero(), 2), Some((String::from("0.00"), Tint::Green)));
    assert_eq!(format_with_color(&Amount::from_i64(1000), 28), None);
    assert!(format_with_color(&Amount::from_i64(999), 28).is_some());
}
