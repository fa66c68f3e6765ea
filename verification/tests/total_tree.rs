use finance_analyzer::amount::Amount;
use finance_analyzer::record::Record;
use finance_analyzer::tree::total_tree::TreeTotal;
use finance_analyzer::tree::Tree;
use finance_analyzer::utils::ignored_categories::IgnoredCategories;

fn credit(amount: i64, category: &str) -> Record {
    Record::new(
        String::from("2024-01-01"),
        String::from("entry"),
        None,
        Some(Amount::from_i64(amount)),
        Some(String::from(category)),
    )
}

fn debit(amount: i64, category: &str) -> Record {
    Record::new(
        String::from("2024-01-01"),
        String::from("entry"),
        Some(Amount::from_i64(amount)),
        None,
        Some(String::from(category)),
    )
}

fn sample() -> Tree {
    let mut tree = Tree::new(String::from("jan"));
    tree.insert(credit(100, "Income"));
    tree.insert(debit(30, "Home/Rent"));
    tree.insert(debit(10, "Home/Utilities"));
    tree
}

#[test]
fn totals_of_the_sample() {
    let tree = sample();
    let total = TreeTotal::create_from(&tree, &IgnoredCategories::default()).unwrap();
    assert_eq!(total.credits(), &Amount::from_i64(100));
    assert_eq!(total.debits(), &Amount::from_i64(-40));
    assert_eq!(total.total(), Some(Amount::from_i64(60)));
    assert_eq!(total.percentage_saved(), Some(Amount::from_i64(60)));
}

#[test]
fn totals_of_an_empty_tree_are_zero() {
    let total = TreeTotal::create_from(&Tree::default(), &IgnoredCategories::default()).unwrap();
    assert_eq!(total.credits(), &Amount::zero());
    assert_eq!(total.debits(), &Amount::zero());
    assert_eq!(total.total(), Some(Amount::zero()));
}

#[test]
fn percentage_saved_of_no_credits_is_none() {
    let mut tree = Tree::new(String::from("t"));
    tree.insert(debit(5, "Food"));
    let total = TreeTotal::create_from(&tree, &IgnoredCategories::default()).unwrap();
    assert_eq!(total.credits(), &Amount::zero());
    assert_eq!(total.percentage_saved(), None);
    assert_eq!(TreeTotal::default().percentage_saved(), None);
}

#[test]
fn ignored_categories_are_left_out() {
    let mut tree = sample();
    tree.insert(debit(7, "Holiday"));
    tree.insert(credit(3, "Holiday"));
    tree.insert(debit(1, "Holiday/Flight"));
    tree.insert(debit(2, ""));
    let ignored = IgnoredCategories::new("Holiday\nHome/Rent\n");
    let total = TreeTotal::create_from(&tree, &ignored).unwrap();
    // the category of an entry is compared as a whole
    assert_eq!(total.credits(), &Amount::from_i64(100));
    assert_eq!(total.debits(), &Amount::from_i64(-13));
    let all = TreeTotal::create_from(&tree, &IgnoredCategories::default()).unwrap();
    assert_eq!(all.credits(), &Amount::from_i64(103));
    assert_eq!(all.debits(), &Amount::from_i64(-50));
}

#[test]
fn entries_of_the_root_are_counted() {
    let mut tree = Tree::new(String::from("t"));
    tree.insert(Record::new(
        String::new(),
        String::new(),
        None,
        Some(Amount::from_i64(9)),
        None,
    ));
    let total = TreeTotal::create_from(&tree, &IgnoredCategories::new("\n")).unwrap();
    assert_eq!(total.credits(), &Amount::from_i64(9));
}

#[test]
fn zero_is_a_credit() {
    let total = TreeTotal::default().add_amount(Amount::zero()).unwrap();
    assert_eq!(total.credits(), &Amount::zero());
    let total = TreeTotal::default().add_amount(Amount::new(-1, 2).unwrap()).unwrap();
    assert_eq!(total.debits(), &Amount::new(-1, 2).unwrap());
    assert_eq!(total.credits(), &Amount::zero());
    let total = total.add_amount(Amount::new(1, 2).unwrap()).unwrap();
    assert_eq!(total.credits(), &Amount::new(1, 2).unwrap());
    assert_eq!(total.total(), Some(Amount::zero()));
}

#[test]
fn totals_that_overflow_are_none() {
    let most = Amount::new(79_228_162_514_264_337_593_543_950_335, 0).unwrap();
    let total = TreeTotal::default().add_amount(most).unwrap();
    assert!(total.add_amount(most).is_none());
    let big = Record::new(String::new(), String::new(), None, Some(most), None);
    let mut tree = Tree::default();
    tree.insert(big.clone());
    tree.insert(big);
    assert!(TreeTotal::create_from(&tree, &IgnoredCategories::default()).is_none());
}

#[test]
fn ignore_record_compares_the_category() {
    let ignored = IgnoredCategories::new("Holiday");
    assert!(TreeTotal::ignore_record(&debit(1, "Holiday"), &ignored));
    assert!(!TreeTotal::ignore_record(&debit(1, "Holiday/Flight"), &ignored));
    assert!(!TreeTotal::ignore_record(&debit(1, "Home"), &ignored));
    let bare = Record::new(String::new(), String::new(), None, None, None);
    assert!(!TreeTotal::ignore_record(&bare, &ignored));
}

#[test]
fn ignored_categories_are_the_lines_of_a_text() {
    let ignored = IgnoredCategories::new("Holiday\r\nGifts\n\nTax");
    assert!(ignored.contains(&String::from("Holiday")));
    assert!(ignored.contains(&String::from("Gifts")));
    assert!(ignored.contains(&String::from("Tax")));
    assert!(ignored.contains(&String::new()));
    assert!(!ignored.contains(&String::from("Home")));
    assert!(!IgnoredCategories::new("").contains(&String::new()));
    assert!(!IgnoredCategories::default().contains(&String::from("Holiday")));
}
