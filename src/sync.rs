//! The outbox worker: turns unsynced records into sheet rows and decides,
//! event by event, what to do next, retrying failed attempts with
//! exponential backoff and jitter up to a bounded number of attempts.
use vstd::prelude::*;
use crate::ledger::{Record, RecordView, text_opt, views};
use crate::money::{amount_text, cents_to_full};

verus! {

/// What the sheet's date column shows for a stored timestamp text, or `None`
/// when the text is not a timestamp.
pub uninterp spec fn sheet_time_of(stamp: Seq<char>) -> Option<Seq<char>>;

/// Relies on chrono: `FromStr` for `DateTime<Utc>` (relaxed RFC 3339) and
/// `DateTime::format` with `%Y-%m-%d %H:%M:%S`. The result depends on the
/// text alone.
#[verifier::external_body]
fn sheet_time(stamp: &str) -> (r: Option<String>)
    ensures
        text_opt(r) == sheet_time_of(stamp@),
{
    match stamp.parse::<chrono::DateTime<chrono::Utc>>() {
        Ok(d) => Some(d.format("%Y-%m-%d %H:%M:%S").to_string()),
        Err(_) => None,
    }
}

/// One row appended to the sheet: date, category, amount in major units,
/// note, author.
pub struct SheetRow {
    pub date: String,
    pub category: String,
    pub amount: String,
    pub note: String,
    pub username: String,
}

pub struct RowView {
    pub date: Seq<char>,
    pub category: Seq<char>,
    pub amount: Seq<char>,
    pub note: Seq<char>,
    pub username: Seq<char>,
}

impl View for SheetRow {
    type V = RowView;

    open spec fn view(&self) -> RowView {
        RowView {
            date: self.date@,
            category: self.category@,
            amount: self.amount@,
            note: self.note@,
            username: self.username@,
        }
    }
}

/// The rows of one push and the ids of the records they came from.
pub struct SyncBatch {
    pub rows: Vec<SheetRow>,
    pub ids: Vec<i64>,
}

pub open spec fn row_views(rows: Seq<SheetRow>) -> Seq<RowView> {
    rows.map_values(|r: SheetRow| r@)
}

pub open spec fn note_text(note: Option<Seq<char>>) -> Seq<char> {
    match note {
        Some(n) => n,
        None => Seq::<char>::empty(),
    }
}

pub open spec fn row_of(r: RecordView, time: Seq<char>) -> RowView {
    RowView {
        date: time,
        category: r.category,
        amount: amount_text(r.amount as int),
        note: note_text(r.note),
        username: r.username,
    }
}

/// Rows for the records whose time could be read, in record order; a record
/// whose time is `None` is left out.
pub open spec fn batch_rows(rs: Seq<RecordView>, times: Seq<Option<Seq<char>>>) -> Seq<RowView>
    decreases rs.len(),
{
    if rs.len() == 0 || times.len() != rs.len() {
        Seq::<RowView>::empty()
    } else {
        let prev = batch_rows(rs.drop_last(), times.drop_last());
        match times.last() {
            Some(t) => prev.push(row_of(rs.last(), t)),
            None => prev,
        }
    }
}

/// Ids of the records that `batch_rows` keeps, in the same order.
pub open spec fn batch_ids(rs: Seq<RecordView>, times: Seq<Option<Seq<char>>>) -> Seq<i64>
    decreases rs.len(),
{
    if rs.len() == 0 || times.len() != rs.len() {
        Seq::<i64>::empty()
    } else {
        let prev = batch_ids(rs.drop_last(), times.drop_last());
        match times.last() {
            Some(_) => prev.push(rs.last().id),
            None => prev,
        }
    }
}

pub open spec fn time_views(times: Seq<Option<String>>) -> Seq<Option<Seq<char>>> {
    times.map_values(|o: Option<String>| text_opt(o))
}

pub open spec fn sheet_times(rs: Seq<RecordView>) -> Seq<Option<Seq<char>>> {
    rs.map_values(|r: RecordView| sheet_time_of(r.date_created))
}

fn note_or_empty(note: &Option<String>) -> (r: String)
    ensures
        r@ == note_text(text_opt(*note)),
{
    match note {
        Some(n) => n.clone(),
        None => String::new(),
    }
}

/// The batch for `records`, given the sheet time of each (`None` where the
/// stored time could not be read: that record stays out of the batch, and
/// so stays unsynced).
/// With not exactly one time per record, the batch is empty.
pub fn batch_from_times(records: &Vec<Record>, times: &Vec<Option<String>>) -> (r: SyncBatch)
    ensures
        row_views(r.rows@) == batch_rows(views(records@), time_views(times@)),
        r.ids@ == batch_ids(views(records@), time_views(times@)),
{
    let n = records.len();
    let mut rows: Vec<SheetRow> = Vec::new();
    let mut ids: Vec<i64> = Vec::new();
    if times.len() != n {
        assert(row_views(rows@) =~= Seq::<RowView>::empty());
        return SyncBatch { rows, ids };
    }
    let mut i: usize = 0;
    while i < n
        invariant
            n == records@.len(),
            n == times@.len(),
            i <= n,
            row_views(rows@) == batch_rows(
                views(records@.subrange(0, i as int)),
                time_views(times@.subrange(0, i as int)),
            ),
            ids@ == batch_ids(
                views(records@.subrange(0, i as int)),
                time_views(times@.subrange(0, i as int)),
            ),
        decreases n - i,
    {
        let ghost rs = views(records@.subrange(0, i + 1));
        let ghost ts = time_views(times@.subrange(0, i + 1));
        assert(rs.drop_last() =~= views(records@.subrange(0, i as int)));
        assert(ts.drop_last() =~= time_views(times@.subrange(0, i as int)));
        assert(rs.last() == records@[i as int]@);
        assert(ts.last() == text_opt(times@[i as int]));
        let ghost before = rows@;
        match &times[i] {
            Some(t) => {
                let rec = &records[i];
                rows.push(
                    SheetRow {
                        date: t.clone(),
                        category: rec.category.clone(),
                        amount: cents_to_full(rec.amount),
                        note: note_or_empty(&rec.note),
                        username: rec.username.clone(),
                    },
                );
                ids.push(rec.id);
                assert(row_views(rows@) =~= row_views(before).push(rows@.last()@));
            },
            None => {},
        }
        i = i + 1;
    }
    assert(records@.subrange(0, n as int) =~= records@);
    assert(times@.subrange(0, n as int) =~= times@);
    SyncBatch { rows, ids }
}

/// The batch for `records`: each record's stored time is read and shown as
/// `YYYY-MM-DD HH:MM:SS`; a record whose time cannot be read is left out.
pub fn build_batch(records: &Vec<Record>) -> (r: SyncBatch)
    ensures
        row_views(r.rows@) == batch_rows(views(records@), sheet_times(views(records@))),
        r.ids@ == batch_ids(views(records@), sheet_times(views(records@))),
{
    let n = records.len();
    let mut times: Vec<Option<String>> = Vec::new();
    let mut i: usize = 0;
    while i < n
        invariant
            n == records@.len(),
            i <= n,
            times@.len() == i,
            time_views(times@) == sheet_times(views(records@.subrange(0, i as int))),
        decreases n - i,
    {
        let ghost before = times@;
        let t = sheet_time(records[i].date_created.as_str());
        assert(text_opt(t) == sheet_time_of(records@[i as int]@.date_created));
        times.push(t);
        assert forall|k: int| 0 <= k <= i implies #[trigger] time_views(times@)[k] == sheet_times(
            views(records@.subrange(0, i + 1)),
        )[k] by {
            if k < i {
                assert(time_views(before)[k] == sheet_times(views(records@.subrange(0, i as int)))[k]);
            }
        }
        assert(time_views(times@) =~= sheet_times(views(records@.subrange(0, i + 1))));
        i = i + 1;
    }
    assert(records@.subrange(0, n as int) =~= records@);
    batch_from_times(records, &times)
}

pub open spec fn pow2(n: nat) -> nat
    decreases n,
{
    if n == 0 {
        1
    } else {
        2 * pow2((n - 1) as nat)
    }
}

/// The delay before the next attempt after `failures` failed ones:
/// `base * 2^(failures - 1)` milliseconds (`base` before any failure),
/// capped at `u64::MAX`.
pub open spec fn backoff_ms(base: u64, failures: nat) -> int {
    let k: nat = if failures == 0 {
        0
    } else {
        (failures - 1) as nat
    };
    let d = base * pow2(k);
    if d > u64::MAX {
        u64::MAX as int
    } else {
        d
    }
}

/// How many attempts a sync makes and how long it waits between them.
#[derive(Debug, Clone, Copy, PartialEq, Eq, Structural)]
pub struct RetryPolicy {
    pub max_attempts: u32,
    pub base_delay_ms: u64,
}

/// What follows a failed attempt.
#[derive(Debug, Clone, Copy, PartialEq, Eq, Structural)]
pub enum RetryStep {
    /// Wait this many milliseconds, then try again.
    Retry(u64),
    /// No attempts are left.
    GiveUp,
}

pub open spec fn retry_step(policy: RetryPolicy, failures: nat) -> RetryStep {
    if failures >= policy.max_attempts {
        RetryStep::GiveUp
    } else {
        RetryStep::Retry(backoff_ms(policy.base_delay_ms, failures) as u64)
    }
}

/// Under a policy of five attempts from 100 ms, the first four failures in a
/// row are retried after 100, 200, 400 and 800 ms at most, and the fifth
/// gives up.
pub proof fn lemma_five_attempts(policy: RetryPolicy)
    requires
        policy.max_attempts == 5,
        policy.base_delay_ms == 100,
    ensures
        retry_step(policy, 1) == RetryStep::Retry(100),
        retry_step(policy, 2) == RetryStep::Retry(200),
        retry_step(policy, 3) == RetryStep::Retry(400),
        retry_step(policy, 4) == RetryStep::Retry(800),
        retry_step(policy, 5) == RetryStep::GiveUp,
{
    reveal_with_fuel(pow2, 4);
    assert(pow2(0) == 1);
    assert(pow2(1) == 2);
    assert(pow2(2) == 4);
    assert(pow2(3) == 8);
}

/// Relies on `tokio_retry::strategy::jitter`: the delay scaled by a random
/// factor in [0, 1), so never longer than the delay given.
#[verifier::external_body]
fn jitter_ms(ms: u64) -> (r: u64)
    ensures
        r <= ms,
{
    tokio_retry::strategy::jitter(std::time::Duration::from_millis(ms)).as_millis() as u64
}

impl RetryPolicy {
    /// Five attempts, the first retry after 100 ms, doubling after that.
    pub fn standard() -> (r: RetryPolicy)
        ensures
            r.max_attempts == 5,
            r.base_delay_ms == 100,
    {
        RetryPolicy { max_attempts: 5, base_delay_ms: 100 }
    }

    /// The delay before the next attempt after `failures` failed ones.
    pub fn backoff_delay(&self, failures: u32) -> (r: u64)
        ensures
            r == backoff_ms(self.base_delay_ms, failures as nat),
    {
        let base = self.base_delay_ms;
        let mut d: u64 = base;
        let mut i: u32 = 1;
        assert(pow2(0) == 1);
        assert(base * pow2(0) == base);
        assert(backoff_ms(base, 1) == base);
        assert(backoff_ms(base, 0) == base);
        if failures == 0 {
            return d;
        }
        while i < failures
            invariant
                1 <= i <= failures,
                d == backoff_ms(base, i as nat),
            decreases failures - i,
        {
            let ghost p = pow2((i - 1) as nat);
            assert(pow2(i as nat) == 2 * p);
            assert(base * (2 * p) == 2 * (base * p)) by (nonlinear_arith);
            assert(base * p >= 0) by (nonlinear_arith)
                requires
                    p >= 0,
            ;
            if d > u64::MAX / 2 {
                d = u64::MAX;
            } else {
                d = d * 2;
            }
            i = i + 1;
        }
        d
    }

    /// What follows the `failures`-th failed attempt in a row.
    pub fn after_failure(&self, failures: u32) -> (r: RetryStep)
        ensures
            r == retry_step(*self, failures as nat),
    {
        if failures >= self.max_attempts {
            RetryStep::GiveUp
        } else {
            RetryStep::Retry(self.backoff_delay(failures))
        }
    }
}

/// Where a sync stands.
#[derive(Debug, Clone, Copy, PartialEq, Eq, Structural)]
pub enum SyncPhase {
    /// No sync is running; waiting for a trigger.
    Idle,
    /// Waiting for the unsynced records.
    Reading,
    /// Waiting for the sheet to take the batch.
    Pushing,
    /// Waiting for the ledger to set the watermarks.
    Marking,
    /// Waiting out the delay before the next attempt.
    Waiting,
}

/// What happened outside since the last step.
pub enum SyncEvent {
    /// A record was written; sync now.
    Trigger,
    /// The unsynced records, oldest first.
    Loaded(Vec<Record>),
    /// The sheet took the batch.
    Pushed,
    /// The ledger set the watermarks.
    Marked,
    /// The sheet refused the batch or could not be reached; this is retried.
    SinkFailed,
    /// The ledger could not be read or written; this is not retried.
    StoreFailed,
    /// The delay is over.
    WaitOver,
}

/// What to do next.
pub enum SyncAction {
    /// Nothing: the event does not fit the phase.
    Nothing,
    /// Read the unsynced records.
    ReadUnsynced,
    /// Append these rows to the sheet.
    Push(SyncBatch),
    /// Set the watermark of exactly these record ids.
    MarkSynced(Vec<i64>),
    /// Wait this many milliseconds.
    Sleep(u64),
    /// The sync is over: everything readable was pushed and marked, or
    /// there was nothing to push.
    Done,
    /// Every attempt to push failed; the records stay unsynced for a later
    /// trigger.
    GiveUp,
    /// The ledger failed; the sync stops and the failure goes to the caller.
    /// The records stay unsynced for a later trigger.
    StoreUnavailable,
}

/// The state of the single sync worker.
pub struct SyncWorker {
    phase: SyncPhase,
    failures: u32,
    pending: Vec<i64>,
    policy: RetryPolicy,
}

impl SyncWorker {
    pub closed spec fn phase(&self) -> SyncPhase {
        self.phase
    }

    /// Failed attempts so far in the running sync.
    pub closed spec fn failures(&self) -> nat {
        self.failures as nat
    }

    /// Ids of the batch being pushed or marked.
    pub closed spec fn pending(&self) -> Seq<i64> {
        self.pending@
    }

    pub closed spec fn policy(&self) -> RetryPolicy {
        self.policy
    }

    pub open spec fn wf(&self) -> bool {
        self.failures() == 0 || self.failures() < self.policy().max_attempts
    }

    pub fn new(policy: RetryPolicy) -> (r: SyncWorker)
        ensures
            r.wf(),
            r.phase() == SyncPhase::Idle,
            r.failures() == 0,
            r.pending() == Seq::<i64>::empty(),
            r.policy() == policy,
    {
        SyncWorker { phase: SyncPhase::Idle, failures: 0, pending: Vec::new(), policy }
    }

    /// Where the sync stands.
    pub fn current_phase(&self) -> (r: SyncPhase)
        ensures
            r == self.phase(),
    {
        self.phase
    }

    fn finish(&mut self)
        ensures
            final(self).phase() == SyncPhase::Idle,
            final(self).failures() == 0,
            final(self).pending() == Seq::<i64>::empty(),
            final(self).policy() == old(self).policy(),
    {
        self.phase = SyncPhase::Idle;
        self.failures = 0;
        self.pending = Vec::new();
    }

    /// Takes one event and says what to do next.
    pub fn step(&mut self, event: SyncEvent) -> (r: SyncAction)
        requires
            old(self).wf(),
        ensures
            final(self).wf(),
            final(self).policy() == old(self).policy(),
            match (old(self).phase(), event) {
                (SyncPhase::Idle, SyncEvent::Trigger) => {
                    &&& r is ReadUnsynced
                    &&& final(self).phase() == SyncPhase::Reading
                    &&& final(self).failures() == 0
                },
                (SyncPhase::Reading, SyncEvent::Loaded(recs)) => {
                    let rows = batch_rows(views(recs@), sheet_times(views(recs@)));
                    let ids = batch_ids(views(recs@), sheet_times(views(recs@)));
                    if rows.len() == 0 {
                        &&& r is Done
                        &&& final(self).phase() == SyncPhase::Idle
                        &&& final(self).failures() == 0
                    } else {
                        &&& r matches SyncAction::Push(b)
                        &&& row_views(b.rows@) == rows
                        &&& b.ids@ == ids
                        &&& final(self).phase() == SyncPhase::Pushing
                        &&& final(self).pending() == ids
                        &&& final(self).failures() == old(self).failures()
                    }
                },
                (SyncPhase::Pushing, SyncEvent::Pushed) => {
                    &&& r matches SyncAction::MarkSynced(ids)
                    &&& ids@ == old(self).pending()
                    &&& final(self).phase() == SyncPhase::Marking
                    &&& final(self).pending() == old(self).pending()
                    &&& final(self).failures() == old(self).failures()
                },
                (SyncPhase::Marking, SyncEvent::Marked) => {
                    &&& r is Done
                    &&& final(self).phase() == SyncPhase::Idle
                    &&& final(self).failures() == 0
                },
                (SyncPhase::Reading, SyncEvent::StoreFailed) | (
                    SyncPhase::Marking,
                    SyncEvent::StoreFailed,
                ) => {
                    &&& r is StoreUnavailable
                    &&& final(self).phase() == SyncPhase::Idle
                    &&& final(self).failures() == 0
                },
                (SyncPhase::Pushing, SyncEvent::SinkFailed) => match retry_step(old(self).policy(), old(self).failures() + 1) {
                    RetryStep::GiveUp => {
                        &&& r is GiveUp
                        &&& final(self).phase() == SyncPhase::Idle
                        &&& final(self).failures() == 0
                    },
                    RetryStep::Retry(delay) => {
                        &&& r matches SyncAction::Sleep(d)
                        &&& d <= delay
                        &&& final(self).phase() == SyncPhase::Waiting
                        &&& final(self).failures() == old(self).failures() + 1
                    },
                },
                (SyncPhase::Waiting, SyncEvent::WaitOver) => {
                    &&& r is ReadUnsynced
                    &&& final(self).phase() == SyncPhase::Reading
                    &&& final(self).failures() == old(self).failures()
                },
                _ => {
                    &&& r is Nothing
                    &&& final(self).phase() == old(self).phase()
                    &&& final(self).failures() == old(self).failures()
                    &&& final(self).pending() == old(self).pending()
                },
            },
    {
        match (self.phase, event) {
            (SyncPhase::Idle, SyncEvent::Trigger) => {
                self.phase = SyncPhase::Reading;
                self.failures = 0;
                SyncAction::ReadUnsynced
            },
            (SyncPhase::Reading, SyncEvent::Loaded(recs)) => {
                let b = build_batch(&recs);
                if b.rows.len() == 0 {
                    self.finish();
                    SyncAction::Done
                } else {
                    self.phase = SyncPhase::Pushing;
                    self.pending = copy_ids(&b.ids);
                    SyncAction::Push(b)
                }
            },
            (SyncPhase::Pushing, SyncEvent::Pushed) => {
                self.phase = SyncPhase::Marking;
                SyncAction::MarkSynced(copy_ids(&self.pending))
            },
            (SyncPhase::Marking, SyncEvent::Marked) => {
                self.finish();
                SyncAction::Done
            },
            (SyncPhase::Reading, SyncEvent::StoreFailed) | (
                SyncPhase::Marking,
                SyncEvent::StoreFailed,
            ) => {
                self.finish();
                SyncAction::StoreUnavailable
            },
            (SyncPhase::Pushing, SyncEvent::SinkFailed) => {
                let failures = self.failures + 1;
                match self.policy.after_failure(failures) {
                    RetryStep::GiveUp => {
                        self.finish();
                        SyncAction::GiveUp
                    },
                    RetryStep::Retry(delay) => {
                        self.phase = SyncPhase::Waiting;
                        self.failures = failures;
                        SyncAction::Sleep(jitter_ms(delay))
                    },
                }
            },
            (SyncPhase::Waiting, SyncEvent::WaitOver) => {
                self.phase = SyncPhase::Reading;
                SyncAction::ReadUnsynced
            },
            _ => SyncAction::Nothing,
        }
    }
}

fn copy_ids(ids: &Vec<i64>) -> (r: Vec<i64>)
    ensures
        r@ == ids@,
{
    let mut out: Vec<i64> = Vec::new();
    let mut i: usize = 0;
    while i < ids.len()
        invariant
            i <= ids@.len(),
            out@ == ids@.subrange(0, i as int),
        decreases ids@.len() - i,
    {
        out.push(ids[i]);
        i = i + 1;
        assert(out@ =~= ids@.subrange(0, i as int));
    }
    assert(out@ =~= ids@);
    out
}

} // verus!
