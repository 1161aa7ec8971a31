use budgetbeast::ledger::{Ledger, Record, Transaction};
use budgetbeast::sync::{
    batch_from_times, build_batch, RetryPolicy, RetryStep, SyncAction, SyncEvent, SyncPhase,
    SyncWorker,
};

fn tx(date: &str, amount: i64, note: Option<&str>) -> Transaction {
    Transaction {
        date: date.to_string(),
        amount,
        category: "Groceries".to_string(),
        username: "bob".to_string(),
        note: note.map(|n| n.to_string()),
    }
}

fn record(id: i64, date: &str) -> Record {
    Record {
        id,
        date_created: date.to_string(),
        amount: 1250,
        category: "Cafe".to_string(),
        username: "ann".to_string(),
        synced_at: None,
        note: Some("latte".to_string()),
    }
}

#[test]
fn batch_rows_from_records() {
    let records = vec![
        record(1, "2024-05-06T10:00:00Z"),
        record(2, "not a date"),
        record(3, "2024-05-07 08:09:10+02:00"),
    ];
    let b = build_batch(&records);
    assert_eq!(b.ids, vec![1, 3]);
    assert_eq!(b.rows.len(), 2);
    assert_eq!(b.rows[0].date, "2024-05-06 10:00:00");
    assert_eq!(b.rows[0].category, "Cafe");
    assert_eq!(b.rows[0].amount, "12.50");
    assert_eq!(b.rows[0].note, "latte");
    assert_eq!(b.rows[0].username, "ann");
    assert_eq!(b.rows[1].date, "2024-05-07 06:09:10");
}

#[test]
fn batch_with_given_times() {
    let mut records = vec![record(4, "x"), record(5, "y")];
    records[1].note = None;
    let b = batch_from_times(&records, &vec![None, Some("T".to_string())]);
    assert_eq!(b.ids, vec![5]);
    assert_eq!(b.rows[0].date, "T");
    assert_eq!(b.rows[0].note, "");
}

#[test]
fn backoff_doubles() {
    let p = RetryPolicy::standard();
    assert_eq!(p.max_attempts, 5);
    let delays: Vec<u64> = (1..=4).map(|k| p.backoff_delay(k)).collect();
    assert_eq!(delays, vec![100, 200, 400, 800]);
    assert_eq!(p.after_failure(4), RetryStep::Retry(800));
    assert_eq!(p.after_failure(5), RetryStep::GiveUp);
    let big = RetryPolicy { max_attempts: 100, base_delay_ms: 1 << 40 };
    assert_eq!(big.backoff_delay(30), u64::MAX);
    assert_eq!(big.backoff_delay(24), 1 << 63);
}

#[test]
fn out_of_phase_events_do_nothing() {
    let mut w = SyncWorker::new(RetryPolicy::standard());
    assert!(matches!(w.step(SyncEvent::Pushed), SyncAction::Nothing));
    assert!(matches!(w.step(SyncEvent::WaitOver), SyncAction::Nothing));
    assert_eq!(w.current_phase(), SyncPhase::Idle);
    assert!(matches!(w.step(SyncEvent::Trigger), SyncAction::ReadUnsynced));
    assert!(matches!(w.step(SyncEvent::Trigger), SyncAction::Nothing));
    assert_eq!(w.current_phase(), SyncPhase::Reading);
}

#[test]
fn nothing_unsynced_is_a_no_op() {
    let mut w = SyncWorker::new(RetryPolicy::standard());
    w.step(SyncEvent::Trigger);
    assert!(matches!(w.step(SyncEvent::Loaded(Vec::new())), SyncAction::Done));
    assert_eq!(w.current_phase(), SyncPhase::Idle);
}

/// Runs one sync against the ledger; `sheet_up` says whether pushes succeed.
/// Returns the final action and how many pushes were tried.
fn run_sync(w: &mut SyncWorker, l: &mut Ledger, sheet_up: bool, now: &str) -> (SyncAction, usize) {
    let mut action = w.step(SyncEvent::Trigger);
    let mut pushes = 0;
    loop {
        let event = match &action {
            SyncAction::ReadUnsynced => SyncEvent::Loaded(l.get_unsynced()),
            SyncAction::Push(_) => {
                pushes += 1;
                if sheet_up {
                    SyncEvent::Pushed
                } else {
                    SyncEvent::SinkFailed
                }
            }
            SyncAction::MarkSynced(ids) => {
                l.update_synced_at(now, ids);
                SyncEvent::Marked
            }
            SyncAction::Sleep(ms) => {
                assert!(*ms <= 800);
                SyncEvent::WaitOver
            }
            _ => return (action, pushes),
        };
        action = w.step(event);
    }
}

#[test]
fn gives_up_after_five_failures_then_recovers() {
    let mut l = Ledger::new();
    l.add_transaction(tx("2024-05-06T10:00:00Z", 100, None)).unwrap();
    l.add_transaction(tx("2024-05-06T11:00:00Z", 200, Some("milk"))).unwrap();
    let mut w = SyncWorker::new(RetryPolicy::standard());
    let (end, pushes) = run_sync(&mut w, &mut l, false, "t1");
    assert!(matches!(end, SyncAction::GiveUp));
    assert_eq!(pushes, 5);
    assert_eq!(w.current_phase(), SyncPhase::Idle);
    assert_eq!(l.get_unsynced().len(), 2);

    let (end, pushes) = run_sync(&mut w, &mut l, true, "t2");
    assert!(matches!(end, SyncAction::Done));
    assert_eq!(pushes, 1);
    assert!(l.get_unsynced().is_empty());
}

#[test]
fn rows_appended_after_the_read_stay_unsynced() {
    let mut l = Ledger::new();
    for (i, d) in ["2024-05-06T10:00:00Z", "2024-05-06T10:01:00Z"].iter().enumerate() {
        l.add_transaction(tx(d, i as i64, None)).unwrap();
    }
    let mut w = SyncWorker::new(RetryPolicy::standard());
    w.step(SyncEvent::Trigger);
    let pushed = match w.step(SyncEvent::Loaded(l.get_unsynced())) {
        SyncAction::Push(b) => b,
        _ => panic!("expected a push"),
    };
    assert_eq!(pushed.ids, vec![1, 2]);
    l.add_transaction(tx("2024-05-06T10:02:00Z", 3, None)).unwrap();
    let ids = match w.step(SyncEvent::Pushed) {
        SyncAction::MarkSynced(ids) => ids,
        _ => panic!("expected marking"),
    };
    assert_eq!(ids, vec![1, 2]);
    assert_eq!(l.update_synced_at("t", &ids), 2);
    assert!(matches!(w.step(SyncEvent::Marked), SyncAction::Done));
    let left: Vec<i64> = l.get_unsynced().iter().map(|r| r.id).collect();
    assert_eq!(left, vec![3]);

    let (end, _) = run_sync(&mut w, &mut l, true, "t2");
    assert!(matches!(end, SyncAction::Done));
    assert!(l.get_unsynced().is_empty());
}

#[test]
fn malformed_time_stays_unsynced() {
    let mut l = Ledger::new();
    l.add_transaction(tx("garbage", 1, None)).unwrap();
    l.add_transaction(tx("2024-05-06T10:00:00Z", 2, None)).unwrap();
    let mut w = SyncWorker::new(RetryPolicy::standard());
    let (end, _) = run_sync(&mut w, &mut l, true, "t");
    assert!(matches!(end, SyncAction::Done));
    let left: Vec<i64> = l.get_unsynced().iter().map(|r| r.id).collect();
    assert_eq!(left, vec![1]);
}

#[test]
fn mismatched_times_give_an_empty_batch() {
    let b = batch_from_times(&vec![record(1, "x")], &Vec::new());
    assert!(b.rows.is_empty());
    assert!(b.ids.is_empty());
}

#[test]
fn backoff_before_any_failure_is_the_base() {
    assert_eq!(RetryPolicy::standard().backoff_delay(0), 100);
    assert_eq!(RetryPolicy::standard().after_failure(1), RetryStep::Retry(100));
}

fn one_record() -> Vec<Record> {
    vec![record(1, "2024-05-06T10:00:00Z")]
}

#[test]
fn policy_without_attempts_gives_up_at_once() {
    let mut w = SyncWorker::new(RetryPolicy { max_attempts: 0, base_delay_ms: 100 });
    w.step(SyncEvent::Trigger);
    assert!(matches!(w.step(SyncEvent::Loaded(one_record())), SyncAction::Push(_)));
    assert!(matches!(w.step(SyncEvent::SinkFailed), SyncAction::GiveUp));
    assert_eq!(w.current_phase(), SyncPhase::Idle);
}

#[test]
fn sleep_is_jittered_within_the_backoff() {
    let mut w = SyncWorker::new(RetryPolicy { max_attempts: 10, base_delay_ms: 1000 });
    w.step(SyncEvent::Trigger);
    let mut bound = 1000;
    for _ in 0..4 {
        assert!(matches!(w.step(SyncEvent::Loaded(one_record())), SyncAction::Push(_)));
        match w.step(SyncEvent::SinkFailed) {
            SyncAction::Sleep(ms) => assert!(ms <= bound),
            _ => panic!("expected a sleep"),
        }
        assert!(matches!(w.step(SyncEvent::WaitOver), SyncAction::ReadUnsynced));
        bound *= 2;
    }
}

#[test]
fn store_failures_are_not_retried() {
    let mut w = SyncWorker::new(RetryPolicy::standard());
    w.step(SyncEvent::Trigger);
    assert!(matches!(w.step(SyncEvent::StoreFailed), SyncAction::StoreUnavailable));
    assert_eq!(w.current_phase(), SyncPhase::Idle);

    let mut l = Ledger::new();
    l.add_transaction(tx("2024-05-06T10:00:00Z", 100, None)).unwrap();
    w.step(SyncEvent::Trigger);
    assert!(matches!(w.step(SyncEvent::Loaded(l.get_unsynced())), SyncAction::Push(_)));
    assert!(matches!(w.step(SyncEvent::Pushed), SyncAction::MarkSynced(_)));
    assert!(matches!(w.step(SyncEvent::StoreFailed), SyncAction::StoreUnavailable));
    assert_eq!(w.current_phase(), SyncPhase::Idle);
    assert_eq!(l.get_unsynced().len(), 1);
}

#[test]
fn sink_failure_outside_a_push_does_nothing() {
    let mut w = SyncWorker::new(RetryPolicy::standard());
    w.step(SyncEvent::Trigger);
    assert!(matches!(w.step(SyncEvent::SinkFailed), SyncAction::Nothing));
    assert_eq!(w.current_phase(), SyncPhase::Reading);
}
