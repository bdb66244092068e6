use chrono::Utc;
use finance_tracker::models::{Category, Transaction};

#[test]
fn category_keeps_what_it_was_made_of() {
    let category = Category::new(7, "Food".to_string());
    assert_eq!(category.id(), 7);
    assert_eq!(category.name(), "Food");
}

#[test]
fn category_takes_an_empty_name_and_identifier_zero() {
    let category = Category::new(0, String::new());
    assert_eq!(category.id(), 0);
    assert_eq!(category.name(), "");
}

#[test]
fn categories_are_equal_by_identifier_and_name() {
    let food = Category::new(1, "Food".to_string());
    assert!(food == Category::new(1, "Food".to_string()));
    assert!(food != Category::new(2, "Food".to_string()));
    assert!(food != Category::new(1, "food".to_string()));
    assert!(food == food.clone());
}

#[test]
fn transaction_keeps_what_it_was_made_of() {
    let food = Category::new(1, "Food".to_string());
    let transaction = Transaction::at(3, -1250, "Refund".to_string(), 42, Some(food.clone()));
    assert_eq!(transaction.id(), 3);
    assert_eq!(transaction.amount(), -1250);
    assert_eq!(transaction.description(), "Refund");
    assert_eq!(transaction.datetime(), 42);
    assert_eq!(transaction.category(), Some(food.clone()));
    assert_eq!(transaction.category_ref(), Some(&food));
}

#[test]
fn transaction_is_stamped_with_the_clock() {
    let before = Utc::now().timestamp_nanos_opt().unwrap();
    let transaction = Transaction::new(1, 100, String::new(), None);
    let after = Utc::now().timestamp_nanos_opt().unwrap();
    assert!(before <= transaction.datetime());
    assert!(transaction.datetime() <= after);
    assert_eq!(transaction.id(), 1);
    assert_eq!(transaction.amount(), 100);
    assert_eq!(transaction.description(), "");
    assert_eq!(transaction.category(), None);
}

#[test]
fn removing_the_category_changes_nothing_else() {
    let food = Category::new(1, "Food".to_string());
    let mut transaction = Transaction::at(3, 900, "Lunch".to_string(), 42, Some(food));
    transaction.remove_category();
    assert_eq!(transaction.category(), None);
    assert_eq!(transaction.id(), 3);
    assert_eq!(transaction.amount(), 900);
    assert_eq!(transaction.description(), "Lunch");
    assert_eq!(transaction.datetime(), 42);
    transaction.remove_category();
    assert_eq!(transaction.category(), None);
}

#[test]
fn a_copied_transaction_equals_its_source_field_by_field() {
    let food = Category::new(1, "Food".to_string());
    let transaction = Transaction::at(3, 900, "Lunch".to_string(), 42, Some(food));
    let copy = transaction.clone();
    assert_eq!(copy.id(), transaction.id());
    assert_eq!(copy.amount(), transaction.amount());
    assert_eq!(copy.description(), transaction.description());
    assert_eq!(copy.datetime(), transaction.datetime());
    assert_eq!(copy.category(), transaction.category());
}
