use fake::{Fake, Faker};
use finance_analyzer::amount::Amount;
use finance_analyzer::record::{count_in, same_entries, CreditRecord, Record};
use finance_analyzer::text::trim;

fn amount(mantissa: i128, scale: u32) -> Amount {
    Amount::new(mantissa, scale).unwrap()
}

fn entry(debit: Option<Amount>, credit: Option<Amount>, category: Option<&str>) -> Record {
    Record::new(
        String::from("2024-03-01"),
        String::from("Baker"),
        debit,
        credit,
        category.map(|c| c.to_string()),
    )
}

#[test]
fn deserialize_record_with_too_many_spaces() {
    // Arrange
    let date: String = Faker.fake();
    let expected = "with to many spaces at each end";
    let input = format!("   {expected}   ");

    // Act
    let record = Record::new(date, trim(input.as_str()), Some(Amount::zero()), Some(Amount::zero()), None);

    // Assert
    assert_eq!(expected, record.description());
}

#[test]
fn amount_of_a_debit_is_below_zero() {
    let record = entry(Some(amount(1250, 2)), None, None);
    assert_eq!(record.get_amount(), amount(-1250, 2));
}

#[test]
fn amount_of_a_debit_wins_over_the_credit() {
    let record = entry(Some(amount(3, 0)), Some(amount(8, 0)), None);
    assert_eq!(record.get_amount(), amount(-3, 0));
}

#[test]
fn amount_of_a_credit_is_the_credit() {
    let record = entry(None, Some(amount(8, 0)), None);
    assert_eq!(record.get_amount(), amount(8, 0));
}

#[test]
fn amount_of_an_entry_without_amounts_is_zero() {
    let record = entry(None, None, None);
    assert_eq!(record.get_amount(), Amount::zero());
}

#[test]
fn getters_hand_out_the_fields() {
    let record = entry(Some(amount(1, 0)), Some(amount(2, 0)), Some("Food"));
    assert_eq!(record.date(), "2024-03-01");
    assert_eq!(record.description(), "Baker");
    assert_eq!(record.debit_amount(), &Some(amount(1, 0)));
    assert_eq!(record.credit_amount(), &Some(amount(2, 0)));
    assert_eq!(record.category(), &Some(String::from("Food")));
}

#[test]
fn set_category_changes_the_category_only() {
    let mut record = entry(Some(amount(1, 0)), None, None);
    record.set_category(String::from("Food/Bread"));
    assert_eq!(record, entry(Some(amount(1, 0)), None, Some("Food/Bread")));
}

#[test]
fn path_of_a_category() {
    assert_eq!(entry(None, None, Some("Home/Rent")).path(), vec!["Home", "Rent"]);
    assert_eq!(entry(None, None, Some("Home")).path(), vec!["Home"]);
    assert_eq!(entry(None, None, Some("")).path(), Vec::<String>::new());
    assert_eq!(entry(None, None, None).path(), Vec::<String>::new());
    assert_eq!(entry(None, None, Some("/")).path(), vec!["", ""]);
    assert_eq!(entry(None, None, Some("A//B")).path(), vec!["A", "", "B"]);
}

#[test]
fn entries_are_equal_by_value() {
    let a = entry(Some(amount(15, 1)), None, Some("Food"));
    let b = entry(Some(amount(150, 2)), None, Some("Food"));
    assert_eq!(a, b);
    assert_eq!(a, a.clone());
    assert_ne!(a, entry(Some(amount(15, 1)), None, Some("Drink")));
    assert_ne!(a, entry(Some(amount(15, 1)), None, None));
    assert_ne!(a, entry(Some(amount(16, 1)), None, Some("Food")));
    assert_ne!(a, entry(None, Some(amount(15, 1)), Some("Food")));
}

#[test]
fn credit_card_entry_becomes_a_debit() {
    let credit = CreditRecord::new(String::from("2024-03-02"), String::from("Train"), amount(42, 0));
    assert_eq!(credit.date(), "2024-03-02");
    assert_eq!(credit.description(), "Train");
    assert_eq!(credit.amount(), &amount(42, 0));
    let record = Record::from(credit);
    assert_eq!(
        record,
        Record::new(
            String::from("2024-03-02"),
            String::from("Train"),
            Some(amount(42, 0)),
            None,
            None,
        )
    );
    assert_eq!(record.get_amount(), amount(-42, 0));
}

#[test]
fn counting_and_comparing_lists_of_entries() {
    let a = entry(Some(amount(1, 0)), None, None);
    let b = entry(Some(amount(2, 0)), None, None);
    let list = vec![a.clone(), b.clone(), a.clone()];
    assert_eq!(count_in(&list, &a), 2);
    assert_eq!(count_in(&list, &b), 1);
    assert_eq!(count_in(&list, &entry(None, None, None)), 0);
    assert!(same_entries(&list, &vec![a.clone(), a.clone(), b.clone()]));
    assert!(!same_entries(&list, &vec![a.clone(), b.clone(), b.clone()]));
    assert!(!same_entries(&list, &vec![a.clone(), b.clone()]));
    assert!(same_entries(&Vec::new(), &Vec::new()));
}
