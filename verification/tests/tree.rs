use fake::{Fake, Faker};
use finance_analyzer::amount::Amount;
use finance_analyzer::record::Record;
use finance_analyzer::tree::{Node, Tree};
use finance_analyzer::utils::Lookup;

fn credit(amount: i64, category: &str) -> Record {
    Record::new(
        String::from("2024-01-01"),
        String::from("entry"),
        None,
        Some(Amount::from_i64(amount)),
        Some(String::from(category)),
    )
}

fn debit(amount: i64, category: &str) -> Record {
    Record::new(
        String::from("2024-01-01"),
        String::from("entry"),
        Some(Amount::from_i64(amount)),
        None,
        Some(String::from(category)),
    )
}

fn random_record(category: &str) -> Record {
    let debit: i64 = Faker.fake();
    let credit: i64 = Faker.fake();
    Record::new(
        Faker.fake(),
        Faker.fake(),
        Some(Amount::from_i64(debit)),
        Some(Amount::from_i64(credit)),
        Some(String::from(category)),
    )
}

fn random_name() -> String {
    let name: String = Faker.fake();
    name.replace('/', "-")
}

fn names(walk: &Vec<(&Node, usize)>) -> Vec<(String, usize)> {
    walk.iter().map(|(node, depth)| (node.catogory().clone(), *depth)).collect()
}

fn sample() -> Tree {
    let mut tree = Tree::new(String::from("jan"));
    tree.insert(credit(100, "Income"));
    tree.insert(debit(30, "Home/Rent"));
    tree.insert(debit(10, "Home/Utilities"));
    tree
}

#[test]
fn node_without_children_eq() {
    let node = Node::new(Faker.fake());
    assert_eq!(node, node);
}

#[test]
fn node_with_records_eq() {
    let category = random_name();
    let mut tree = Tree::default();
    tree.insert(random_record(category.as_str()));
    let node = tree.get_root().child(&category).unwrap();

    assert_eq!(node, node);

    let other_category = random_name();
    let mut other_tree = Tree::default();
    other_tree.insert(random_record(other_category.as_str()));
    let other = other_tree.get_root().child(&other_category).unwrap();

    assert_ne!(node, other);
}

#[test]
fn node_with_children_eq() {
    // Assert equality
    let category = random_name();
    let mut tree = Tree::default();
    for _ in 0..2 {
        let child = format!("{}/{}", category, random_name());
        tree.insert(random_record(child.as_str()));
        tree.insert(random_record(child.as_str()));
    }
    let node = tree.get_root().child(&category).unwrap();

    assert_eq!(node, node);

    // Assert inequality
    let other_category = random_name();
    let mut other_tree = Tree::default();
    for _ in 0..3 {
        let child = format!("{}/{}", other_category, random_name());
        other_tree.insert(random_record(child.as_str()));
        other_tree.insert(random_record(child.as_str()));
    }
    let other = other_tree.get_root().child(&other_category).unwrap();
    assert_ne!(node, other);
}

#[test]
fn record_ends_up_at_the_end_of_its_path() {
    let mut tree = Tree::new(String::from("t"));
    let record = debit(5, "A/B/C");
    tree.insert(record.clone());
    let root = tree.get_root();
    assert!(root.get_records().is_empty());
    assert_eq!(root.children().len(), 1);
    let a = root.child(&String::from("A")).unwrap();
    assert_eq!(a.catogory(), "A");
    assert!(a.get_records().is_empty());
    let b = a.child(&String::from("B")).unwrap();
    assert!(b.get_records().is_empty());
    let c = b.child(&String::from("C")).unwrap();
    assert_eq!(c.get_records(), &vec![record]);
    assert!(c.children().is_empty());
    assert!(root.child(&String::from("B")).is_none());
}

#[test]
fn record_without_category_ends_up_at_the_root() {
    let mut tree = Tree::new(String::from("t"));
    let none = Record::new(String::from("d"), String::from("x"), None, None, None);
    let empty = Record::new(String::from("d"), String::from("y"), None, None, Some(String::new()));
    tree.insert(none.clone());
    tree.insert(empty.clone());
    assert_eq!(tree.get_root().get_records(), &vec![none, empty]);
    assert!(tree.get_root().children().is_empty());
}

#[test]
fn empty_segments_name_categories() {
    let mut tree = Tree::new(String::from("t"));
    tree.insert(debit(1, "A//B"));
    tree.insert(debit(2, "/"));
    let root = tree.get_root();
    let a = root.child(&String::from("A")).unwrap();
    let nameless = a.child(&String::new()).unwrap();
    assert!(nameless.child(&String::from("B")).is_some());
    let first = root.child(&String::new()).unwrap();
    assert_eq!(first.child(&String::new()).unwrap().get_records().len(), 1);
}

#[test]
fn inserting_twice_files_twice() {
    let mut tree = Tree::new(String::from("t"));
    tree.insert(debit(5, "A"));
    tree.insert(debit(5, "A"));
    let a = tree.get_root().child(&String::from("A")).unwrap();
    assert_eq!(a.get_records().len(), 2);
    assert_eq!(tree.get_root().children().len(), 1);
}

#[test]
fn totals_of_income_and_home() {
    let tree = sample();
    let root = tree.get_root();
    let income = root.child(&String::from("Income")).unwrap();
    let home = root.child(&String::from("Home")).unwrap();
    assert_eq!(income.total(), Some(Amount::from_i64(100)));
    assert_eq!(home.total(), Some(Amount::from_i64(-40)));
    assert_eq!(root.total(), Some(Amount::from_i64(60)));
}

#[test]
fn total_is_the_sum_of_all_amounts_whatever_the_shape() {
    let amounts: [i64; 6] = [100, -30, -10, 7, -2, 55];
    let shapes: [[&str; 6]; 3] = [
        ["A", "A", "A", "A", "A", "A"],
        ["A/B/C", "A/B", "A", "", "D/E", "D"],
        ["F", "G", "H", "I", "J", "K"],
    ];
    for shape in shapes.iter() {
        let mut tree = Tree::new(String::from("t"));
        for (amount, category) in amounts.iter().zip(shape.iter()) {
            tree.insert(credit(*amount, category));
        }
        assert_eq!(tree.get_root().total(), Some(Amount::from_i64(120)));
    }
}

#[test]
fn total_twice_is_the_same() {
    let tree = sample();
    assert_eq!(tree.get_root().total(), tree.get_root().total());
}

#[test]
fn total_that_overflows_is_none() {
    let most = Amount::new(79_228_162_514_264_337_593_543_950_335, 0).unwrap();
    let big = Record::new(String::new(), String::new(), None, Some(most), Some(String::from("A")));
    let mut tree = Tree::new(String::from("t"));
    tree.insert(big.clone());
    assert_eq!(tree.get_root().total(), Some(most));
    tree.insert(big);
    assert_eq!(tree.get_root().total(), None);
}

#[test]
fn trees_are_equal_whatever_the_order_of_insertion() {
    let records = vec![
        credit(100, "Income"),
        debit(30, "Home/Rent"),
        debit(10, "Home/Utilities"),
        debit(30, "Home/Rent"),
        debit(4, ""),
        debit(9, "Food"),
    ];
    let mut forwards = Tree::new(String::from("a"));
    for record in records.iter() {
        forwards.insert(record.clone());
    }
    let mut backwards = Tree::new(String::from("b"));
    for record in records.iter().rev() {
        backwards.insert(record.clone());
    }
    assert_eq!(forwards, backwards);
    assert_eq!(backwards, forwards);
    backwards.insert(debit(9, "Food"));
    assert_ne!(forwards, backwards);
    assert_ne!(backwards, forwards);
}

#[test]
fn trees_with_other_categories_are_not_equal() {
    let mut a = Tree::new(String::from("a"));
    a.insert(debit(1, "A"));
    let mut b = Tree::new(String::from("a"));
    b.insert(debit(1, "B"));
    assert_ne!(a, b);
    let mut c = Tree::new(String::from("a"));
    c.insert(debit(1, "A"));
    c.insert(debit(1, "B"));
    assert_ne!(a, c);
    assert_ne!(c, a);
    assert_eq!(Tree::default(), Tree::new(String::from("named")));
}

#[test]
fn preorder_visits_each_category_before_those_below_it() {
    let mut tree = sample();
    tree.insert(debit(1, "Home/Rent/Garage"));
    let walk = tree.preorder();
    assert_eq!(
        names(&walk),
        vec![
            (String::from("Income"), 0),
            (String::from("Home"), 0),
            (String::from("Rent"), 1),
            (String::from("Garage"), 2),
            (String::from("Utilities"), 1),
        ]
    );
}

#[test]
fn preorder_of_an_empty_tree_is_empty() {
    let tree = Tree::default();
    assert!(tree.preorder().is_empty());
    assert!(tree.preorder_sort_by_key(|_node: &Node| 0).is_empty());
}

#[test]
fn sorted_preorder_takes_the_lowest_key_first() {
    let mut tree = sample();
    tree.insert(debit(500, "Car"));
    let walk = tree.preorder_sort_by_key(|node: &Node| match node.total() {
        Some(total) => total.floor_key(),
        None => 0,
    });
    assert_eq!(
        names(&walk),
        vec![
            (String::from("Car"), 0),
            (String::from("Home"), 0),
            (String::from("Rent"), 1),
            (String::from("Utilities"), 1),
            (String::from("Income"), 0),
        ]
    );
}

#[test]
fn sorted_preorder_with_one_key_keeps_the_order() {
    let mut tree = sample();
    tree.insert(debit(500, "Car"));
    tree.insert(debit(5, "Car/Fuel"));
    tree.insert(debit(5, "Car/Asphalt"));
    let walk = tree.preorder_sort_by_key(|_node: &Node| 7);
    assert_eq!(names(&walk), names(&tree.preorder()));
}

#[test]
fn sorted_preorder_keeps_the_order_of_equal_keys() {
    let mut tree = Tree::new(String::from("t"));
    for name in ["d", "a", "c", "b"].iter() {
        tree.insert(debit(1, name));
    }
    tree.insert(debit(5, "z"));
    let walk = tree.preorder_sort_by_key(|node: &Node| match node.total() {
        Some(total) => total.floor_key(),
        None => 0,
    });
    let visited: Vec<String> = walk.iter().map(|(node, _)| node.catogory().clone()).collect();
    assert_eq!(visited, vec!["z", "d", "a", "c", "b"]);
}

#[test]
fn for_each_hands_out_every_node() {
    let tree = sample();
    let nodes = tree.get_root().for_each();
    let visited: Vec<String> = nodes.iter().map(|node| node.catogory().clone()).collect();
    assert_eq!(visited, vec!["", "Income", "Home", "Rent", "Utilities"]);
}

#[test]
fn records_hands_out_every_entry() {
    let mut tree = sample();
    tree.insert(debit(4, ""));
    let records = tree.get_root().records();
    let amounts: Vec<Amount> = records.iter().map(|record| record.get_amount()).collect();
    assert_eq!(
        amounts,
        vec![
            Amount::from_i64(-4),
            Amount::from_i64(100),
            Amount::from_i64(-30),
            Amount::from_i64(-10),
        ]
    );
}

#[test]
fn find_child_gives_the_position() {
    let tree = sample();
    let root = tree.get_root();
    assert_eq!(root.find_child(&String::from("Income")), Some(0));
    assert_eq!(root.find_child(&String::from("Home")), Some(1));
    assert_eq!(root.find_child(&String::from("Rent")), None);
}

#[test]
fn name_of_a_tree_comes_from_the_file_name() {
    assert_eq!(Tree::extract_name_from_file("data/2024/jan_statement.csv"), "jan");
    assert_eq!(Tree::extract_name_from_file("feb_2024_full.csv"), "feb");
    assert_eq!(Tree::extract_name_from_file("march.csv"), "march.csv");
    assert_eq!(Tree::extract_name_from_file("dir_a/"), "");
    assert_eq!(Tree::extract_name_from_file(""), "");
    assert_eq!(Tree::new(String::from("jan")).get_name(), "jan");
}

#[test]
fn load_record_takes_the_category_that_is_missing() {
    let mut tree = Tree::new(String::from("t"));
    let mut lookup = Lookup::new();
    let record = Record::new(
        String::from("d"),
        String::from("Baker"),
        Some(Amount::from_i64(3)),
        None,
        None,
    );
    let filed = tree.load_record(record, String::from("Food/Bread"), &mut lookup);
    assert_eq!(filed.category(), &Some(String::from("Food/Bread")));
    assert_eq!(lookup.get(&String::from("Baker")), Some(&String::from("Food/Bread")));
    let food = tree.get_root().child(&String::from("Food")).unwrap();
    assert_eq!(food.child(&String::from("Bread")).unwrap().get_records(), &vec![filed]);
}

#[test]
fn load_record_keeps_the_category_that_is_there() {
    let mut tree = Tree::new(String::from("t"));
    let mut lookup = Lookup::new();
    lookup.insert(String::from("Baker"), String::from("Old"));
    let filed = tree.load_record(debit(3, "Food"), String::from("Other"), &mut lookup);
    assert_eq!(filed, debit(3, "Food"));
    assert_eq!(lookup.get(&String::from("entry")), Some(&String::from("Food")));
    assert_eq!(lookup.get(&String::from("Baker")), Some(&String::from("Old")));
    assert!(tree.get_root().child(&String::from("Other")).is_none());
    assert!(tree.get_root().child(&String::from("Food")).is_some());
}
