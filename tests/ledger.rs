use budgetbeast::ledger::{mark_synced_statement, Ledger, Transaction};

fn tx(amount: i64) -> Transaction {
    Transaction {
        date: "2024-05-06T10:00:00Z".to_string(),
        amount,
        category: "Cafe".to_string(),
        username: "ann".to_string(),
        note: None,
    }
}

fn unsynced_ids(l: &Ledger) -> Vec<i64> {
    l.get_unsynced().iter().map(|r| r.id).collect()
}

#[test]
fn ids_are_assigned_in_order() {
    let mut l = Ledger::new();
    assert_eq!(l.add_transaction(tx(1)), Ok(1));
    assert_eq!(l.add_transaction(tx(2)), Ok(2));
    assert_eq!(l.add_transaction(tx(3)), Ok(3));
    let rows = l.get_unsynced();
    assert_eq!(rows.len(), 3);
    assert_eq!(rows[1].amount, 2);
    assert_eq!(rows[1].category, "Cafe");
    assert!(rows[1].synced_at.is_none());
}

#[test]
fn later_row_survives_batch_marking() {
    let mut l = Ledger::new();
    l.add_transaction(tx(1)).unwrap();
    l.add_transaction(tx(2)).unwrap();
    let batch: Vec<i64> = unsynced_ids(&l);
    assert_eq!(batch, vec![1, 2]);
    l.add_transaction(tx(3)).unwrap();
    assert_eq!(l.update_synced_at("2024-05-06 10:01:00", &batch), 2);
    assert_eq!(unsynced_ids(&l), vec![3]);
    let second = unsynced_ids(&l);
    assert_eq!(l.update_synced_at("2024-05-06 10:02:00", &second), 1);
    assert!(unsynced_ids(&l).is_empty());
}

#[test]
fn marking_twice_updates_nothing_the_second_time() {
    let mut l = Ledger::new();
    for a in 1..=4 {
        l.add_transaction(tx(a)).unwrap();
    }
    assert_eq!(l.update_synced_at("t1", &vec![1, 2, 3]), 3);
    assert_eq!(l.update_synced_at("t2", &vec![2, 3]), 0);
    assert_eq!(l.update_synced_at("t3", &vec![3, 4]), 1);
    assert_eq!(l.update_synced_at("t4", &vec![99]), 0);
    assert!(unsynced_ids(&l).is_empty());
}

#[test]
fn marking_nothing() {
    let mut l = Ledger::new();
    l.add_transaction(tx(5)).unwrap();
    assert_eq!(l.update_synced_at("t", &vec![]), 0);
    assert_eq!(unsynced_ids(&l), vec![1]);
}

#[test]
fn synced_watermark_is_kept() {
    let mut l = Ledger::new();
    l.add_transaction(tx(5)).unwrap();
    l.update_synced_at("first", &vec![1]);
    l.update_synced_at("second", &vec![1]);
    let copy = l.get_unsynced();
    assert!(copy.is_empty());
    assert_eq!(l.len(), 1);
}

#[test]
fn statement_has_one_mark_per_id() {
    assert_eq!(
        mark_synced_statement(3),
        "UPDATE transactions SET synced_at = ? WHERE id IN (?, ?, ?) AND synced_at IS NULL"
    );
    assert_eq!(
        mark_synced_statement(1),
        "UPDATE transactions SET synced_at = ? WHERE id IN (?) AND synced_at IS NULL"
    );
}

fn dated(date: &str, amount: i64) -> Transaction {
    Transaction {
        date: date.to_string(),
        amount,
        category: "Transport".to_string(),
        username: "ann".to_string(),
        note: Some("bus".to_string()),
    }
}

#[test]
fn weekly_total_counts_from_monday() {
    let mut l = Ledger::new();
    l.add_transaction(dated("2024-05-05T23:59:59+00:00", 1_000)).unwrap();
    l.add_transaction(dated("2024-05-06T00:00:00+00:00", 250)).unwrap();
    l.add_transaction(dated("2024-05-09T12:00:00+00:00", -50)).unwrap();
    l.add_transaction(dated("2024-05-12", 300)).unwrap();
    assert_eq!(l.get_weekly_summary("2024-05-06"), Some(500));
    assert_eq!(l.get_weekly_summary("2024-05-13"), Some(0));
    assert_eq!(l.get_weekly_summary("2024-05-01"), Some(1_500));
}

#[test]
fn weekly_total_of_empty_ledger() {
    assert_eq!(Ledger::new().get_weekly_summary("2024-05-06"), Some(0));
}

#[test]
fn weekly_total_overflow() {
    let mut l = Ledger::new();
    l.add_transaction(dated("2024-05-06", i64::MAX)).unwrap();
    assert_eq!(l.get_weekly_summary("2024-05-06"), Some(i64::MAX));
    l.add_transaction(dated("2024-05-07", 1)).unwrap();
    assert_eq!(l.get_weekly_summary("2024-05-06"), None);
    l.add_transaction(dated("2024-05-07", -1)).unwrap();
    assert_eq!(l.get_weekly_summary("2024-05-06"), Some(i64::MAX));
}
