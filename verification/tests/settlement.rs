use accounter::ledger::Item;
use accounter::ledger::validate_items;
use accounter::settle::UserTotal;
use accounter::settle::compute_balances;

fn user_total(user: &str, total: u32) -> UserTotal {
    UserTotal { user: user.to_string(), total }
}

#[test]
fn empty_ledger_yields_empty_settlement() {
    let totals: Vec<UserTotal> = vec![];
    let result = compute_balances(&totals);
    assert!(result.is_empty());
}

#[test]
fn single_user_average_is_total_and_balance_is_zero() {
    let totals = vec![user_total("solo", 1000)];
    let result = compute_balances(&totals);
    assert_eq!(result.len(), 1);
    assert_eq!(result[0].user, "solo");
    assert_eq!(result[0].total, 1000);
    assert_eq!(result[0].avg_contribution, 1000);
    assert_eq!(result[0].balances, vec![0]);
}

#[test]
fn three_user_end_to_end_example() {
    let totals = vec![user_total("A", 1000), user_total("B", 500), user_total("C", 1500)];
    let result = compute_balances(&totals);
    assert_eq!(result.len(), 3);
    assert_eq!(result[0].avg_contribution, 333);
    assert_eq!(result[1].avg_contribution, 166);
    assert_eq!(result[2].avg_contribution, 500);
    assert_eq!(result[0].balances, vec![0, -167, 167]);
    assert_eq!(result[1].balances, vec![167, 0, 334]);
    assert_eq!(result[2].balances, vec![-167, -334, 0]);
    // The row-major accumulator (each row's entries plus its raw total)
    // agrees with the directly-summed raw total, so the correction on the
    // last self-balance stayed zero.
    let mut accumulated: i64 = 0;
    for row in &result {
        for b in &row.balances {
            accumulated += *b as i64;
        }
        accumulated += row.total as i64;
    }
    assert_eq!(accumulated, 3000);
    assert_eq!(result[2].balances[2], 0);
}

#[test]
fn antisymmetry_of_balances() {
    let totals = vec![
        user_total("A", 17),
        user_total("B", 9999),
        user_total("C", 0),
        user_total("D", 123456),
    ];
    let result = compute_balances(&totals);
    for i in 0..result.len() {
        assert_eq!(result[i].balances[i], 0);
        for j in 0..result.len() {
            assert_eq!(result[i].balances[j], -result[j].balances[i]);
        }
    }
}

#[test]
fn truncating_division_in_averages() {
    let totals = vec![user_total("x", 10), user_total("y", 5)];
    let result = compute_balances(&totals);
    assert_eq!(result[0].avg_contribution, 5);
    assert_eq!(result[1].avg_contribution, 2);
    assert_eq!(result[0].balances, vec![0, -3]);
    assert_eq!(result[1].balances, vec![3, 0]);
}

#[test]
fn users_with_zero_totals() {
    let totals = vec![user_total("a", 0), user_total("b", 0)];
    let result = compute_balances(&totals);
    assert_eq!(result[0].balances, vec![0, 0]);
    assert_eq!(result[1].balances, vec![0, 0]);
}

fn item(name: &str, price: &str) -> Item {
    Item { name: name.to_string(), price: price.to_string() }
}

#[test]
fn validate_items_accepts_good_batch() {
    let items = vec![item("coffee", "1.00"), item("sugar", " 0.05 "), item("mug", "12.34")];
    let costs = validate_items(&items).ok().unwrap();
    assert_eq!(costs, vec![100, 5, 1234]);
}

#[test]
fn validate_items_rejects_at_first_bad_price() {
    let items = vec![item("good", "1.00"), item("bad", "1.5"), item("worse", "xx")];
    let err = validate_items(&items).err().unwrap();
    assert_eq!(err.item, "bad");
    assert_eq!(err.raw, "1.5");
}

#[test]
fn validate_items_rejects_overflowing_price() {
    let items = vec![item("house", "42949672.96")];
    let err = validate_items(&items).err().unwrap();
    assert_eq!(err.item, "house");
    assert_eq!(err.raw, "42949672.96");
}

#[test]
fn validate_items_empty_batch() {
    let items: Vec<Item> = vec![];
    let costs = validate_items(&items).ok().unwrap();
    assert!(costs.is_empty());
}
