//! The ledger: every recorded transaction with its sync watermark. Ids are
//! handed out in increasing order; a record whose `synced_at` is unset is
//! still owed to the remote sheet.
use vstd::prelude::*;
use crate::money::fits_i64;

verus! {

broadcast use vstd::seq_lib::group_seq_lib_default;

/// A transaction as entered, before the ledger assigns it an id.
pub struct Transaction {
    /// When it was entered, as RFC 3339 text.
    pub date: String,
    /// Minor currency units.
    pub amount: i64,
    pub category: String,
    pub username: String,
    pub note: Option<String>,
}

/// A stored transaction.
pub struct Record {
    pub id: i64,
    pub date_created: String,
    pub amount: i64,
    pub category: String,
    pub username: String,
    /// When the record was confirmed delivered to the sheet; unset until then.
    pub synced_at: Option<String>,
    pub note: Option<String>,
}

pub open spec fn text_opt(o: Option<String>) -> Option<Seq<char>> {
    match o {
        Some(s) => Some(s@),
        None => None,
    }
}

/// A record as plain values.
pub struct RecordView {
    pub id: i64,
    pub date_created: Seq<char>,
    pub amount: i64,
    pub category: Seq<char>,
    pub username: Seq<char>,
    pub synced_at: Option<Seq<char>>,
    pub note: Option<Seq<char>>,
}

impl View for Record {
    type V = RecordView;

    open spec fn view(&self) -> RecordView {
        RecordView {
            id: self.id,
            date_created: self.date_created@,
            amount: self.amount,
            category: self.category@,
            username: self.username@,
            synced_at: text_opt(self.synced_at),
            note: text_opt(self.note),
        }
    }
}

pub open spec fn views(rs: Seq<Record>) -> Seq<RecordView> {
    rs.map_values(|r: Record| r@)
}

fn copy_text(o: &Option<String>) -> (r: Option<String>)
    ensures
        text_opt(r) == text_opt(*o),
{
    match o {
        Some(s) => Some(s.clone()),
        None => None,
    }
}

impl Record {
    /// A field-by-field copy.
    pub fn duplicate(&self) -> (r: Record)
        ensures
            r@ == self@,
    {
        Record {
            id: self.id,
            date_created: self.date_created.clone(),
            amount: self.amount,
            category: self.category.clone(),
            username: self.username.clone(),
            synced_at: copy_text(&self.synced_at),
            note: copy_text(&self.note),
        }
    }
}

/// Why the ledger refused a transaction.
#[derive(Debug, Clone, Copy, PartialEq, Eq, Structural)]
pub enum LedgerError {
    /// Every 64-bit id has been handed out.
    IdsExhausted,
}

pub open spec fn is_unsynced(r: RecordView) -> bool {
    r.synced_at is None
}

pub open spec fn unsynced_filter() -> spec_fn(RecordView) -> bool {
    |r: RecordView| is_unsynced(r)
}

/// The records still owed to the sheet, oldest first.
pub open spec fn unsynced(s: Seq<RecordView>) -> Seq<RecordView> {
    s.filter(unsynced_filter())
}

/// Whether `mark_synced` with `ids` sets the watermark of `r`.
pub open spec fn gets_marked(r: RecordView, ids: Seq<i64>) -> bool {
    is_unsynced(r) && ids.contains(r.id)
}

pub open spec fn marked(r: RecordView, ids: Seq<i64>, at: Seq<char>) -> RecordView {
    if gets_marked(r, ids) {
        RecordView { synced_at: Some(at), ..r }
    } else {
        r
    }
}

/// The records after setting the watermark to `at` on each unsynced record
/// whose id is in `ids`.
pub open spec fn mark_synced(s: Seq<RecordView>, ids: Seq<i64>, at: Seq<char>) -> Seq<RecordView> {
    s.map_values(|r: RecordView| marked(r, ids, at))
}

/// How many records `mark_synced` changes.
pub open spec fn count_marked(s: Seq<RecordView>, ids: Seq<i64>) -> nat {
    s.filter(marked_filter(ids)).len()
}

pub open spec fn marked_filter(ids: Seq<i64>) -> spec_fn(RecordView) -> bool {
    |r: RecordView| gets_marked(r, ids)
}

fn holds_id(ids: &Vec<i64>, id: i64) -> (r: bool)
    ensures
        r == ids@.contains(id),
{
    let mut i: usize = 0;
    while i < ids.len()
        invariant
            i <= ids@.len(),
            forall|k: int| 0 <= k < i ==> ids@[k] != id,
        decreases ids@.len() - i,
    {
        if ids[i] == id {
            return true;
        }
        i = i + 1;
    }
    false
}

pub open spec fn id_not_in(ids: Seq<i64>) -> spec_fn(RecordView) -> bool {
    |r: RecordView| !ids.contains(r.id)
}

proof fn lemma_unsynced_after_mark(s: Seq<RecordView>, ids: Seq<i64>, at: Seq<char>)
    ensures
        unsynced(mark_synced(s, ids, at)) == unsynced(s).filter(id_not_in(ids)),
    decreases s.len(),
{
    if s.len() == 0 {
        assert(mark_synced(s, ids, at) =~= s);
        assert(unsynced(s) =~= s) by {
            reveal(Seq::filter);
        }
        assert(s.filter(id_not_in(ids)) =~= s) by {
            reveal(Seq::filter);
        }
    } else {
        let q = s.drop_last();
        let x = s.last();
        lemma_unsynced_after_mark(q, ids, at);
        assert(q.push(x) =~= s);
        assert(mark_synced(s, ids, at) =~= mark_synced(q, ids, at).push(marked(x, ids, at)));
        mark_synced(q, ids, at).lemma_filter_push(marked(x, ids, at), unsynced_filter());
        q.lemma_filter_push(x, unsynced_filter());
        if is_unsynced(x) {
            unsynced(q).lemma_filter_push(x, id_not_in(ids));
        }
    }
}

/// Marking the ids of a pushed batch takes exactly those records out of the
/// unsynced ones; records appended after the batch was read, whose ids are
/// not in it, are untouched and stay unsynced.
pub proof fn lemma_mark_synced_batch(
    read: Seq<RecordView>,
    later: Seq<RecordView>,
    ids: Seq<i64>,
    at: Seq<char>,
)
    requires
        forall|i: int| 0 <= i < later.len() ==> !ids.contains(#[trigger] later[i].id),
    ensures
        unsynced(mark_synced(read + later, ids, at)) == unsynced(read).filter(id_not_in(ids))
            + unsynced(later),
        mark_synced(read + later, ids, at).subrange(read.len() as int, (read + later).len() as int)
            == later,
{
    assert(mark_synced(later, ids, at) =~= later);
    assert(mark_synced(read + later, ids, at) =~= mark_synced(read, ids, at) + later);
    lemma_unsynced_after_mark(read, ids, at);
    assert(mark_synced(read + later, ids, at).subrange(
        read.len() as int,
        (read + later).len() as int,
    ) =~= later);
}

/// Marking twice: the second call leaves every record whose id the first
/// call was given as the first call left it; when all its ids were given to
/// the first call, it changes nothing and counts zero.
pub proof fn lemma_mark_synced_twice(
    s: Seq<RecordView>,
    ids: Seq<i64>,
    ids2: Seq<i64>,
    at: Seq<char>,
    at2: Seq<char>,
)
    ensures
        forall|i: int|
            0 <= i < s.len() && ids.contains(s[i].id) ==> #[trigger] mark_synced(
                mark_synced(s, ids, at),
                ids2,
                at2,
            )[i] == mark_synced(s, ids, at)[i],
        (forall|x: i64| ids2.contains(x) ==> ids.contains(x)) ==> {
            &&& count_marked(mark_synced(s, ids, at), ids2) == 0
            &&& mark_synced(mark_synced(s, ids, at), ids2, at2) == mark_synced(s, ids, at)
        },
{
    let m1 = mark_synced(s, ids, at);
    if forall|x: i64| ids2.contains(x) ==> ids.contains(x) {
        assert forall|i: int| 0 <= i < m1.len() implies !marked_filter(ids2)(#[trigger] m1[i]) by {
            assert(m1[i].id == s[i].id);
        }
        m1.lemma_all_neg_filter_empty(marked_filter(ids2));
        assert(mark_synced(m1, ids2, at2) =~= m1);
    }
}

/// Lexicographic order on texts; on `YYYY-MM-DD` dates it is date order.
pub open spec fn text_less(a: Seq<char>, b: Seq<char>) -> bool
    decreases a.len(),
{
    if a.len() == 0 {
        b.len() > 0
    } else if b.len() == 0 {
        false
    } else if a[0] != b[0] {
        a[0] < b[0]
    } else {
        text_less(a.drop_first(), b.drop_first())
    }
}

/// The `YYYY-MM-DD` part of a stored timestamp.
pub open spec fn day_of(stamp: Seq<char>) -> Seq<char> {
    if stamp.len() >= 10 {
        stamp.take(10)
    } else {
        stamp
    }
}

pub open spec fn in_week(r: RecordView, week_start: Seq<char>) -> bool {
    !text_less(day_of(r.date_created), week_start)
}

/// Sum of the amounts of the records dated on or after `week_start`.
pub open spec fn weekly_sum(s: Seq<RecordView>, week_start: Seq<char>) -> int
    decreases s.len(),
{
    if s.len() == 0 {
        0
    } else {
        weekly_sum(s.drop_last(), week_start) + if in_week(s.last(), week_start) {
            s.last().amount as int
        } else {
            0
        }
    }
}

fn less_text(a: &str, b: &str) -> (r: bool)
    ensures
        r == text_less(a@, b@),
{
    let na = a.unicode_len();
    let nb = b.unicode_len();
    let mut i: usize = 0;
    assert(a@.skip(0) =~= a@);
    assert(b@.skip(0) =~= b@);
    while i < na && i < nb
        invariant
            na == a@.len(),
            nb == b@.len(),
            i <= na,
            i <= nb,
            text_less(a@, b@) == text_less(a@.skip(i as int), b@.skip(i as int)),
        decreases na - i,
    {
        let ca = a.get_char(i);
        let cb = b.get_char(i);
        assert(a@.skip(i as int)[0] == ca);
        assert(b@.skip(i as int)[0] == cb);
        if ca != cb {
            return ca < cb;
        }
        assert(a@.skip(i as int).drop_first() =~= a@.skip(i + 1));
        assert(b@.skip(i as int).drop_first() =~= b@.skip(i + 1));
        i = i + 1;
    }
    assert(a@.skip(i as int).len() == na - i);
    assert(b@.skip(i as int).len() == nb - i);
    i == na && i < nb
}

/// `n` SQL parameter marks separated by `, `.
pub open spec fn placeholders(n: nat) -> Seq<char>
    decreases n,
{
    if n == 0 {
        Seq::<char>::empty()
    } else if n == 1 {
        "?"@
    } else {
        placeholders((n - 1) as nat) + ", ?"@
    }
}

pub open spec fn mark_synced_sql(n: nat) -> Seq<char> {
    "UPDATE transactions SET synced_at = ? WHERE id IN ("@ + placeholders(n)
        + ") AND synced_at IS NULL"@
}

/// The statement that sets the watermark on `count` ids at once, only on
/// rows still unsynced. Its first parameter is the time, then the ids.
pub fn mark_synced_statement(count: usize) -> (r: String)
    ensures
        r@ == mark_synced_sql(count as nat),
{
    let mut out = String::new();
    out.append("UPDATE transactions SET synced_at = ? WHERE id IN (");
    let mut i: usize = 0;
    while i < count
        invariant
            i <= count,
            out@ == "UPDATE transactions SET synced_at = ? WHERE id IN ("@ + placeholders(i as nat),
        decreases count - i,
    {
        if i == 0 {
            out.append("?");
        } else {
            out.append(", ?");
        }
        i = i + 1;
        assert(out@ =~= "UPDATE transactions SET synced_at = ? WHERE id IN ("@ + placeholders(
            i as nat,
        ));
    }
    out.append(") AND synced_at IS NULL");
    assert(out@ =~= mark_synced_sql(count as nat));
    out
}

/// Ids strictly increase with position and stay below the next id.
pub open spec fn ids_ordered(s: Seq<RecordView>, next_id: int) -> bool {
    &&& forall|i: int, j: int| 0 <= i < j < s.len() ==> s[i].id < s[j].id
    &&& forall|i: int| 0 <= i < s.len() ==> #[trigger] s[i].id < next_id
}

/// An in-memory ledger: records in insertion order and the next id to hand out.
/// It is the model of the durable store: the bot keeps its records in SQLite,
/// whose statements (insert with the next row id, select the unsynced rows by
/// id, `mark_synced_statement`) follow these methods' contracts, but the
/// contracts here are proved of this model, not of the database.
pub struct Ledger {
    records: Vec<Record>,
    next_id: i64,
}

impl View for Ledger {
    type V = Seq<RecordView>;

    closed spec fn view(&self) -> Seq<RecordView> {
        views(self.records@)
    }
}

impl Ledger {
    pub closed spec fn next_id(&self) -> int {
        self.next_id as int
    }

    pub open spec fn wf(&self) -> bool {
        &&& self.next_id() >= 1
        &&& ids_ordered(self@, self.next_id())
    }

    pub fn new() -> (r: Ledger)
        ensures
            r.wf(),
            r@ == Seq::<RecordView>::empty(),
            r.next_id() == 1,
    {
        let r = Ledger { records: Vec::new(), next_id: 1 };
        assert(r@ =~= Seq::<RecordView>::empty());
        r
    }

    /// Number of records.
    pub fn len(&self) -> (r: usize)
        ensures
            r == self@.len(),
    {
        self.records.len()
    }

    /// Appends a transaction as an unsynced record under the next id, and
    /// returns that id.
    pub fn add_transaction(&mut self, t: Transaction) -> (r: Result<i64, LedgerError>)
        requires
            old(self).wf(),
        ensures
            final(self).wf(),
            match r {
                Ok(id) => {
                    &&& id == old(self).next_id()
                    &&& final(self).next_id() == id + 1
                    &&& final(self)@ == old(self)@.push(
                        RecordView {
                            id,
                            date_created: t.date@,
                            amount: t.amount,
                            category: t.category@,
                            username: t.username@,
                            synced_at: None,
                            note: text_opt(t.note),
                        },
                    )
                },
                Err(e) => {
                    &&& e == LedgerError::IdsExhausted
                    &&& old(self).next_id() == i64::MAX
                    &&& final(self)@ == old(self)@
                    &&& final(self).next_id() == old(self).next_id()
                },
            },
    {
        if self.next_id == i64::MAX {
            return Err(LedgerError::IdsExhausted);
        }
        let id = self.next_id;
        let ghost before = self.records@;
        self.records.push(
            Record {
                id,
                date_created: t.date,
                amount: t.amount,
                category: t.category,
                username: t.username,
                synced_at: None,
                note: t.note,
            },
        );
        self.next_id = id + 1;
        assert(views(self.records@) =~= views(before).push(self.records@.last()@));
        Ok(id)
    }

    /// Copies of the unsynced records, oldest first.
    pub fn get_unsynced(&self) -> (r: Vec<Record>)
        ensures
            views(r@) == unsynced(self@),
    {
        let n = self.records.len();
        let mut out: Vec<Record> = Vec::new();
        let mut i: usize = 0;
        while i < n
            invariant
                n == self.records@.len(),
                i <= n,
                views(out@) == unsynced(views(self.records@.subrange(0, i as int))),
            decreases n - i,
        {
            let ghost pre = views(self.records@.subrange(0, i as int));
            let ghost step = views(self.records@.subrange(0, i + 1));
            assert(step =~= pre.push(self.records@[i as int]@));
            proof {
                pre.lemma_filter_push(self.records@[i as int]@, unsynced_filter());
            }
            let ghost before = out@;
            if self.records[i].synced_at.is_none() {
                out.push(self.records[i].duplicate());
                assert(views(out@) =~= views(before).push(self.records@[i as int]@));
            }
            i = i + 1;
        }
        assert(self.records@.subrange(0, n as int) =~= self.records@);
        out
    }

    /// Sum of the amounts of the records dated on or after `week_start`
    /// (`YYYY-MM-DD`, the most recent Monday), or `None` when the sum does
    /// not fit in 64 bits.
    pub fn get_weekly_summary(&self, week_start: &str) -> (r: Option<i64>)
        ensures
            r == if fits_i64(weekly_sum(self@, week_start@)) {
                Some(weekly_sum(self@, week_start@) as i64)
            } else {
                None::<i64>
            },
    {
        let n = self.records.len();
        let mut total: i128 = 0;
        let mut i: usize = 0;
        while i < n
            invariant
                n == self.records@.len(),
                i <= n,
                total == weekly_sum(views(self.records@.subrange(0, i as int)), week_start@),
                -(i as int) * 0x8000_0000_0000_0000 <= total <= (i as int) * 0x8000_0000_0000_0000,
            decreases n - i,
        {
            let ghost pre = views(self.records@.subrange(0, i as int));
            assert(views(self.records@.subrange(0, i + 1)).drop_last() =~= pre);
            let rec = &self.records[i];
            let stamp = rec.date_created.as_str();
            let day = if stamp.unicode_len() >= 10 {
                stamp.substring_char(0, 10)
            } else {
                stamp
            };
            assert(day@ == day_of(rec.date_created@));
            if !less_text(day, week_start) {
                total = total + rec.amount as i128;
            }
            i = i + 1;
        }
        assert(self.records@.subrange(0, n as int) =~= self.records@);
        if i64::MIN as i128 <= total && total <= i64::MAX as i128 {
            Some(total as i64)
        } else {
            None
        }
    }

    /// Sets the watermark to `time` on each unsynced record whose id is in
    /// `ids`; records already synced keep their watermark. Returns how many
    /// records changed.
    pub fn update_synced_at(&mut self, time: &str, ids: &Vec<i64>) -> (r: usize)
        requires
            old(self).wf(),
        ensures
            final(self).wf(),
            final(self).next_id() == old(self).next_id(),
            final(self)@ == mark_synced(old(self)@, ids@, time@),
            r == count_marked(old(self)@, ids@),
    {
        let ghost s = self@;
        let n = self.records.len();
        let mut count: usize = 0;
        let mut i: usize = 0;
        while i < n
            invariant
                n == s.len(),
                n == self.records@.len(),
                i <= n,
                self.next_id == old(self).next_id,
                s == old(self)@,
                self@ == mark_synced(s.subrange(0, i as int), ids@, time@) + s.subrange(
                    i as int,
                    n as int,
                ),
                count == count_marked(s.subrange(0, i as int), ids@),
                count <= i,
            decreases n - i,
        {
            let ghost before = self@;
            let ghost pre = s.subrange(0, i as int);
            assert(s.subrange(0, i + 1) =~= pre.push(s[i as int]));
            proof {
                pre.lemma_filter_push(s[i as int], marked_filter(ids@));
            }
            assert(before[i as int] == s[i as int]);
            if self.records[i].synced_at.is_none() && holds_id(ids, self.records[i].id) {
                self.records[i].synced_at = Some(time.to_owned());
                count = count + 1;
            }
            assert(self@ =~= before.update(i as int, marked(s[i as int], ids@, time@)));
            assert(mark_synced(s.subrange(0, i + 1), ids@, time@) =~= mark_synced(pre, ids@, time@).push(
                marked(s[i as int], ids@, time@),
            ));
            assert(self@ =~= mark_synced(s.subrange(0, i + 1), ids@, time@) + s.subrange(
                i + 1,
                n as int,
            ));
            i = i + 1;
        }
        assert(s.subrange(0, n as int) =~= s);
        assert(self@ =~= mark_synced(s, ids@, time@));
        count
    }
}

} // verus!
