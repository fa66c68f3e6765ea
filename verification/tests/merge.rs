use finance_analyzer::amount::Amount;
use finance_analyzer::merge::{is_full_file, run, sort_by_date, Statement};
use finance_analyzer::order::sort_order;
use finance_analyzer::record::{CreditRecord, Record};

fn record(date: &str, description: &str) -> Record {
    Record::new(String::from(date), String::from(description), None, None, None)
}

fn descriptions(records: &Vec<Record>) -> Vec<String> {
    records.iter().map(|r| r.description().clone()).collect()
}

#[test]
fn full_statement_has_a_sort_code() {
    let full = vec![String::from("Transaction Date"), String::from(" Sort Code "), String::from("Balance")];
    assert!(is_full_file(&full));
    let credit = vec![String::from("Date"), String::from("Description"), String::from("Amount")];
    assert!(!is_full_file(&credit));
    assert!(!is_full_file(&vec![String::from("Sort Codes")]));
    assert!(!is_full_file(&Vec::new()));
}

#[test]
fn records_are_sorted_by_date_and_keep_their_order() {
    let records = vec![
        record("2024-02-01", "c"),
        record("2024-01-15", "a"),
        record("2024-02-01", "d"),
        record("2024-01-31", "b"),
        record("2024-02-01", "e"),
    ];
    let sorted = sort_by_date(&records);
    assert_eq!(descriptions(&sorted), vec!["a", "b", "c", "d", "e"]);
    assert!(sort_by_date(&Vec::new()).is_empty());
}

#[test]
fn sorting_agrees_with_the_standard_library() {
    let dates = ["05/01/2024", "01/01/2024", "05/01/2024", "", "31/12/2023", "01/01/2024", "1"];
    let records: Vec<Record> =
        dates.iter().enumerate().map(|(i, d)| record(d, format!("{i}").as_str())).collect();
    let mut expected = records.clone();
    expected.sort_by(|a, z| a.date().cmp(z.date()));
    assert_eq!(sort_by_date(&records), expected);
}

#[test]
fn statements_are_merged_into_one_ledger() {
    let card = CreditRecord::new(String::from("2024-01-20"), String::from("card"), Amount::from_i64(9));
    let statements = vec![
        Statement::Full(vec![record("2024-01-31", "late"), record("2024-01-01", "early")]),
        Statement::Credit(vec![card]),
        Statement::Full(vec![record("2024-01-20", "same day")]),
    ];
    let merged = run(&statements);
    assert_eq!(descriptions(&merged), vec!["early", "card", "same day", "late"]);
    assert_eq!(merged[1].get_amount(), Amount::from_i64(-9));
    assert_eq!(merged[1].category(), &None);
    assert!(run(&Vec::new()).is_empty());
}

#[test]
fn order_of_keys_is_stable() {
    assert_eq!(sort_order(&vec![3, 1, 2, 1, 3, 0]), vec![5, 1, 3, 2, 0, 4]);
    assert_eq!(sort_order(&vec![7, 7, 7]), vec![0, 1, 2]);
    assert_eq!(sort_order(&vec![i64::MAX, i64::MIN]), vec![1, 0]);
    assert_eq!(sort_order(&Vec::new()), Vec::<usize>::new());
}
