use chrono::Utc;
use finance_tracker::models::{Category, Transaction};
use finance_tracker::store::Store;
use finance_tracker::summary::{check_limit, check_limit_at, summarize, summary, Entry, OVERALL};

const MARCH_9: i64 = 1_709_942_400_000_000_000;
const APRIL_1: i64 = 1_711_929_600_000_000_000;
const DAY: i64 = 86_400_000_000_000;

#[test]
fn test_summary_overall() {
    let curr_day = Utc::now().date_naive().format("%Y-%m-%d").to_string();
    let transactions = vec![
        Transaction::new(1, 100, "Test transaction 1".to_string(), None),
        Transaction::new(2, 200, "Test transaction 2".to_string(), None),
    ];
    let (total, by_day) =
        summary(transactions.iter().collect(), Some("overall".to_string()), None);
    assert_eq!(total, 300);
    assert_eq!(by_day.len(), 1);
    assert_eq!(by_day.get(&curr_day).unwrap(), &300);
}

#[test]
fn test_summary_month() {
    let curr_day = Utc::now().date_naive().format("%Y-%m-%d").to_string();
    let curr_month = Utc::now().format("%Y-%m").to_string();
    let transactions = vec![
        Transaction::new(1, 100, "Test transaction 1".to_string(), None),
        Transaction::new(2, 200, "Test transaction 2".to_string(), None),
    ];
    let (total, by_day) = summary(transactions.iter().collect(), Some(curr_month), None);
    assert_eq!(total, 300);
    assert_eq!(by_day.len(), 1);
    assert_eq!(by_day.get(&curr_day).unwrap(), &300);
}

#[test]
fn test_summary_month_with_category() {
    let curr_day = Utc::now().date_naive().format("%Y-%m-%d").to_string();
    let curr_month = Utc::now().format("%Y-%m").to_string();
    let category = Category::new(1, "Food".to_string());
    let transactions = vec![
        Transaction::new(1, 100, "Test transaction 1".to_string(), Some(category.clone())),
        Transaction::new(2, 200, "Test transaction 2".to_string(), None),
    ];
    let (total, by_day) =
        summary(transactions.iter().collect(), Some(curr_month), Some(&category));
    assert_eq!(total, 100);
    assert_eq!(by_day.len(), 1);
    assert_eq!(by_day.get(&curr_day).unwrap(), &100);
}

#[test]
fn test_check_limit() {
    let transactions = vec![
        Transaction::new(1, 100, "Test transaction 1".to_string(), None),
        Transaction::new(2, 200, "Test transaction 2".to_string(), None),
    ];
    let limit = 500;
    let remaining = check_limit(transactions.iter().collect(), limit);
    assert_eq!(remaining, 200);
    let limit = 100;
    let remaining = check_limit(transactions.iter().collect(), limit);
    assert_eq!(remaining, -200);
}

#[test]
fn lunch_and_rent_summarized_for_food() {
    let today = Utc::now().date_naive().format("%Y-%m-%d").to_string();
    let mut store = Store::new(None);
    let food = store.add_category("Food");
    assert_eq!(food, 1);
    store.add_transaction("Lunch".to_string(), 1250, store.get_category(food));
    store.add_transaction("Rent".to_string(), 80000, None);
    let category = store.get_category(food).unwrap();
    let (total, by_day) =
        summary(store.list_transactions(None), Some("overall".to_string()), Some(&category));
    assert_eq!(total, 1250);
    assert_eq!(by_day.len(), 1);
    assert_eq!(by_day.get(&today), Some(&1250));
}

#[test]
fn summary_of_nothing_is_zero_and_has_no_day() {
    let (total, by_day) = summary(Vec::new(), Some(OVERALL.to_string()), None);
    assert_eq!(total, 0);
    assert_eq!(by_day.len(), 0);
    assert!(by_day.entries().is_empty());
    assert_eq!(by_day.get("2024-03-09"), None);
}

#[test]
fn overall_total_is_the_sum_of_all_amounts() {
    let transactions = vec![
        Transaction::at(1, 700, "a".to_string(), MARCH_9, None),
        Transaction::at(2, -200, "b".to_string(), APRIL_1, Some(Category::new(1, "x".to_string()))),
        Transaction::at(3, 45, "c".to_string(), -1, None),
        Transaction::at(4, 0, "d".to_string(), 0, None),
    ];
    let (total, by_day) = summary(transactions.iter().collect(), Some("overall".to_string()), None);
    assert_eq!(total, 545);
    assert_eq!(by_day.len(), 4);
    assert_eq!(by_day.get("2024-03-09"), Some(&700));
    assert_eq!(by_day.get("2024-04-01"), Some(&-200));
    assert_eq!(by_day.get("1969-12-31"), Some(&45));
    assert_eq!(by_day.get("1970-01-01"), Some(&0));
}

#[test]
fn month_filter_takes_the_transactions_of_that_month() {
    let transactions = vec![
        Transaction::at(1, 100, "first of March".to_string(), MARCH_9 - 8 * DAY, None),
        Transaction::at(2, 200, "ninth".to_string(), MARCH_9, None),
        Transaction::at(3, 300, "ninth, later".to_string(), MARCH_9 + DAY - 1, None),
        Transaction::at(4, 400, "last of March".to_string(), APRIL_1 - 1, None),
        Transaction::at(5, 500, "April".to_string(), APRIL_1, None),
        Transaction::at(6, 600, "February".to_string(), MARCH_9 - 8 * DAY - 1, None),
    ];
    let (total, by_day) = summary(transactions.iter().collect(), Some("2024-03".to_string()), None);
    assert_eq!(total, 1000);
    assert_eq!(by_day.len(), 3);
    assert_eq!(by_day.get("2024-03-01"), Some(&100));
    assert_eq!(by_day.get("2024-03-09"), Some(&500));
    assert_eq!(by_day.get("2024-03-31"), Some(&400));
    assert_eq!(by_day.get("2024-04-01"), None);
    assert_eq!(by_day.get("2024-02-29"), None);

    let (april, april_days) =
        summary(transactions.iter().collect(), Some("2024-04".to_string()), None);
    assert_eq!(april, 500);
    assert_eq!(april_days.entries(), &vec![("2024-04-01".to_string(), 500)]);
}

#[test]
fn malformed_month_counts_nothing() {
    let transactions = vec![
        Transaction::at(1, 100, "a".to_string(), MARCH_9, None),
        Transaction::at(2, 200, "b".to_string(), APRIL_1, None),
    ];
    for month in ["", "2024-3", "2024/03", "March", "Overall", "2024-03-09", " 2024-03"] {
        let (total, by_day) = summary(transactions.iter().collect(), Some(month.to_string()), None);
        assert_eq!(total, 0);
        assert_eq!(by_day.len(), 0);
    }
}

#[test]
fn category_filter_compares_identifier_and_name() {
    let food = Category::new(1, "Food".to_string());
    let transactions = vec![
        Transaction::at(1, 100, "a".to_string(), MARCH_9, Some(food.clone())),
        Transaction::at(2, 200, "b".to_string(), MARCH_9, Some(Category::new(1, "Fun".to_string()))),
        Transaction::at(3, 400, "c".to_string(), MARCH_9, Some(Category::new(2, "Food".to_string()))),
        Transaction::at(4, 800, "d".to_string(), MARCH_9, None),
        Transaction::at(5, 1600, "e".to_string(), APRIL_1, Some(food.clone())),
    ];
    let (total, by_day) =
        summary(transactions.iter().collect(), Some("overall".to_string()), Some(&food));
    assert_eq!(total, 1700);
    assert_eq!(by_day.len(), 2);
    assert_eq!(by_day.get("2024-03-09"), Some(&100));
    assert_eq!(by_day.get("2024-04-01"), Some(&1600));
    let (march, _) = summary(transactions.iter().collect(), Some("2024-03".to_string()), Some(&food));
    assert_eq!(march, 100);
    let (all, _) = summary(transactions.iter().collect(), Some("overall".to_string()), None);
    assert_eq!(all, 3100);
}

#[test]
fn totals_do_not_overflow_sixty_four_bits() {
    let transactions = vec![
        Transaction::at(1, i64::MAX, "a".to_string(), MARCH_9, None),
        Transaction::at(2, i64::MAX, "b".to_string(), MARCH_9, None),
        Transaction::at(3, i64::MIN, "c".to_string(), APRIL_1, None),
        Transaction::at(4, i64::MIN, "d".to_string(), APRIL_1, None),
        Transaction::at(5, i64::MIN, "e".to_string(), APRIL_1, None),
    ];
    let (total, by_day) = summary(transactions.iter().collect(), Some("overall".to_string()), None);
    assert_eq!(total, 2 * (i64::MAX as i128) + 3 * (i64::MIN as i128));
    assert_eq!(by_day.get("2024-03-09"), Some(&(2 * (i64::MAX as i128))));
    assert_eq!(by_day.get("2024-04-01"), Some(&(3 * (i64::MIN as i128))));
    assert_eq!(
        check_limit_at(transactions.iter().collect(), i64::MIN, APRIL_1),
        i64::MIN as i128 - 3 * (i64::MIN as i128)
    );
}

#[test]
fn summarize_goes_by_the_labels_it_is_given() {
    let food = Category::new(1, "Food".to_string());
    let entries = vec![
        Entry::new("m1".to_string(), "d1".to_string(), 10, Some(&food)),
        Entry::new("m1".to_string(), "d2".to_string(), 20, None),
        Entry::new("m2".to_string(), "d1".to_string(), 40, None),
        Entry::new("m1".to_string(), "d1".to_string(), 80, None),
        Entry::new("overall".to_string(), "d3".to_string(), 160, None),
    ];
    let (total, by_day) = summarize(&entries, "m1", None);
    assert_eq!(total, 110);
    assert_eq!(by_day.len(), 2);
    assert_eq!(by_day.get("d1"), Some(&90));
    assert_eq!(by_day.get("d2"), Some(&20));
    assert_eq!(by_day.get("d3"), None);

    let (all, all_days) = summarize(&entries, "overall", None);
    assert_eq!(all, 310);
    assert_eq!(all_days.len(), 3);
    assert_eq!(all_days.get("d1"), Some(&130));
    assert_eq!(all_days.get("d3"), Some(&160));

    let (fed, fed_days) = summarize(&entries, "m1", Some(&food));
    assert_eq!(fed, 10);
    assert_eq!(fed_days.entries(), &vec![("d1".to_string(), 10)]);

    let (none, no_days) = summarize(&entries, "m3", None);
    assert_eq!(none, 0);
    assert_eq!(no_days.len(), 0);
}

#[test]
fn entry_of_a_transaction_counts_in_its_month_and_on_its_day() {
    let food = Category::new(1, "Food".to_string());
    let transaction = Transaction::at(1, 900, "a".to_string(), MARCH_9 + 5, Some(food.clone()));
    let entries = vec![Entry::of(&transaction)];
    let (total, by_day) = summarize(&entries, "2024-03", Some(&food));
    assert_eq!(total, 900);
    assert_eq!(by_day.get("2024-03-09"), Some(&900));
    let (other, _) = summarize(&entries, "2024-02", Some(&food));
    assert_eq!(other, 0);
}

#[test]
fn days_of_a_summary_stand_once_each() {
    let transactions = vec![
        Transaction::at(1, 1, "a".to_string(), MARCH_9, None),
        Transaction::at(2, 2, "b".to_string(), APRIL_1, None),
        Transaction::at(3, 4, "c".to_string(), MARCH_9 + 1, None),
        Transaction::at(4, 8, "d".to_string(), APRIL_1 + 1, None),
    ];
    let (_, by_day) = summary(transactions.iter().collect(), Some("overall".to_string()), None);
    let mut days = by_day.entries().clone();
    days.sort();
    assert_eq!(days, vec![("2024-03-09".to_string(), 5), ("2024-04-01".to_string(), 10)]);
}

#[test]
fn check_limit_at_counts_the_month_of_the_instant() {
    let transactions = vec![
        Transaction::at(1, 100, "a".to_string(), MARCH_9, None),
        Transaction::at(2, 200, "b".to_string(), APRIL_1 - 1, Some(Category::new(1, "x".to_string()))),
        Transaction::at(3, 400, "c".to_string(), APRIL_1, None),
    ];
    assert_eq!(check_limit_at(transactions.iter().collect(), 500, MARCH_9 + 17), 200);
    assert_eq!(check_limit_at(transactions.iter().collect(), 100, MARCH_9 + 17), -200);
    assert_eq!(check_limit_at(transactions.iter().collect(), 500, APRIL_1 + DAY), 100);
    assert_eq!(check_limit_at(transactions.iter().collect(), 500, 0), 500);
    assert_eq!(check_limit_at(Vec::new(), -7, 0), -7);
}

#[test]
fn check_limit_leaves_other_months_out() {
    let transactions = vec![
        Transaction::new(1, 100, "now".to_string(), None),
        Transaction::at(2, 200, "long ago".to_string(), 0, None),
    ];
    assert_eq!(check_limit(transactions.iter().collect(), 500), 400);
}

#[test]
fn summary_of_the_listing_is_the_summary_of_the_store() {
    let mut store = Store::new(None);
    let food = store.add_category("Food");
    store.add_transaction_at("c".to_string(), 400, APRIL_1, store.get_category(food));
    store.add_transaction_at("a".to_string(), 100, MARCH_9, None);
    store.add_transaction_at("d".to_string(), 800, APRIL_1 + 1, None);
    store.add_transaction_at("b".to_string(), 200, MARCH_9 + 1, store.get_category(food));
    let category = store.get_category(food).unwrap();
    for month in ["overall", "2024-03", "2024-04", "2024-05"] {
        for filter in [None, Some(&category)] {
            let (listed, listed_days) =
                summary(store.list_transactions(None), Some(month.to_string()), filter);
            let (kept, kept_days) =
                summary(store.transactions().iter().collect(), Some(month.to_string()), filter);
            assert_eq!(listed, kept);
            let mut listed_days = listed_days.entries().clone();
            let mut kept_days = kept_days.entries().clone();
            listed_days.sort();
            kept_days.sort();
            assert_eq!(listed_days, kept_days);
        }
    }
    let (march, _) = summary(store.list_transactions(None), Some("2024-03".to_string()), None);
    assert_eq!(march, 300);
    let (fed, _) =
        summary(store.list_transactions(None), Some("overall".to_string()), Some(&category));
    assert_eq!(fed, 600);
}
