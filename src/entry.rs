//! Reading an entered command: an amount, then an optional note, separated
//! by whitespace.
use vstd::prelude::*;
use crate::money::{AmountError, amount_of, parse_amount};

verus! {

/// Unicode White_Space, the set `char::is_whitespace` tests.
pub open spec fn is_space(c: char) -> bool {
    ('\u{9}' <= c && c <= '\u{d}') || c == ' ' || c == '\u{85}' || c == '\u{a0}' || c == '\u{1680}'
        || ('\u{2000}' <= c && c <= '\u{200a}') || c == '\u{2028}' || c == '\u{2029}' || c
        == '\u{202f}' || c == '\u{205f}' || c == '\u{3000}'
}

fn space(c: char) -> (r: bool)
    ensures
        r == is_space(c),
{
    ('\u{9}' <= c && c <= '\u{d}') || c == ' ' || c == '\u{85}' || c == '\u{a0}' || c == '\u{1680}'
        || ('\u{2000}' <= c && c <= '\u{200a}') || c == '\u{2028}' || c == '\u{2029}' || c
        == '\u{202f}' || c == '\u{205f}' || c == '\u{3000}'
}

/// The maximal runs of non-whitespace characters of `s`, in order.
pub open spec fn words(s: Seq<char>) -> Seq<Seq<char>>
    decreases s.len(),
{
    if s.len() == 0 {
        Seq::<Seq<char>>::empty()
    } else {
        let w = words(s.drop_last());
        let c = s.last();
        if is_space(c) {
            w
        } else if s.len() >= 2 && !is_space(s[s.len() - 2]) && w.len() > 0 {
            w.update(w.len() - 1, w.last().push(c))
        } else {
            w.push(seq![c])
        }
    }
}

/// Words joined by single spaces.
pub open spec fn join_words(ws: Seq<Seq<char>>) -> Seq<char>
    decreases ws.len(),
{
    if ws.len() == 0 {
        Seq::<char>::empty()
    } else if ws.len() == 1 {
        ws[0]
    } else {
        join_words(ws.drop_last()) + seq![' '] + ws.last()
    }
}

/// An entered transaction, before its category is chosen.
pub struct Entry {
    /// Minor currency units.
    pub amount: i64,
    pub note: Option<String>,
}

/// Why an entered command was refused.
#[derive(Debug, Clone, Copy, PartialEq, Eq, Structural)]
pub enum EntryError {
    /// There is no word at all.
    Empty,
    /// The first word is not an amount.
    Amount(AmountError),
}

pub open spec fn span_words(spans: Seq<(usize, usize)>, s: Seq<char>) -> Seq<Seq<char>> {
    spans.map_values(|p: (usize, usize)| s.subrange(p.0 as int, p.1 as int))
}

/// Start and end of each word of `s`.
fn word_spans(s: &str) -> (r: Vec<(usize, usize)>)
    ensures
        span_words(r@, s@) == words(s@),
        forall|k: int| 0 <= k < r@.len() ==> (#[trigger] r@[k]).0 < r@[k].1 <= s@.len(),
{
    let n = s.unicode_len();
    let mut spans: Vec<(usize, usize)> = Vec::new();
    let mut i: usize = 0;
    let mut prev_space = true;
    while i < n
        invariant
            n == s@.len(),
            i <= n,
            span_words(spans@, s@) == words(s@.subrange(0, i as int)),
            forall|k: int| 0 <= k < spans@.len() ==> (#[trigger] spans@[k]).0 < spans@[k].1 <= i,
            prev_space == (i == 0 || is_space(s@[i - 1])),
            !prev_space ==> spans@.len() > 0 && spans@.last().1 == i,
        decreases n - i,
    {
        let c = s.get_char(i);
        let ghost pre = s@.subrange(0, i as int);
        let ghost cur = s@.subrange(0, i + 1);
        assert(cur.drop_last() =~= pre);
        assert(cur.last() == c);
        let ghost before = spans@;
        if space(c) {
            prev_space = true;
        } else if !prev_space {
            let last = spans.len() - 1;
            let start = spans[last].0;
            spans.set(last, (start, i + 1));
            assert(cur[cur.len() - 2] == s@[i - 1]);
            assert(s@.subrange(start as int, i + 1) =~= s@.subrange(start as int, i as int).push(c));
            assert(span_words(spans@, s@) =~= words(cur));
        } else {
            spans.push((i, i + 1));
            assert(s@.subrange(i as int, i + 1) =~= seq![c]);
            if i > 0 {
                assert(cur[cur.len() - 2] == s@[i - 1]);
            }
            assert(span_words(spans@, s@) =~= words(cur));
            prev_space = false;
        }
        i = i + 1;
    }
    assert(s@.subrange(0, n as int) =~= s@);
    spans
}

/// Reads `12.50 lunch with Ann`: the first word is the amount, the other
/// words, joined by single spaces, are the note.
pub fn parse_entry(args: &str) -> (r: Result<Entry, EntryError>)
    ensures
        ({
            let ws = words(args@);
            if ws.len() == 0 {
                r == Err::<Entry, EntryError>(EntryError::Empty)
            } else {
                match amount_of(ws[0]) {
                    Err(e) => r == Err::<Entry, EntryError>(EntryError::Amount(e)),
                    Ok(v) => r matches Ok(entry) && entry.amount == v && if ws.len() > 1 {
                        entry.note matches Some(n) && n@ == join_words(ws.subrange(1, ws.len() as int))
                    } else {
                        entry.note is None
                    },
                }
            }
        }),
{
    let spans = word_spans(args);
    let ghost ws = words(args@);
    if spans.len() == 0 {
        return Err(EntryError::Empty);
    }
    let first = args.substring_char(spans[0].0, spans[0].1);
    assert(first@ == ws[0]);
    let amount = match parse_amount(first) {
        Ok(v) => v,
        Err(e) => {
            return Err(EntryError::Amount(e));
        },
    };
    if spans.len() == 1 {
        return Ok(Entry { amount, note: None });
    }
    let mut note = String::new();
    let mut k: usize = 1;
    while k < spans.len()
        invariant
            1 <= k <= spans@.len(),
            span_words(spans@, args@) == ws,
            forall|j: int| 0 <= j < spans@.len() ==> (#[trigger] spans@[j]).0 < spans@[j].1 <= args@.len(),
            note@ == join_words(ws.subrange(1, k as int)),
        decreases spans@.len() - k,
    {
        let w = args.substring_char(spans[k].0, spans[k].1);
        assert(w@ == ws[k as int]);
        let ghost part = ws.subrange(1, k + 1);
        assert(part.drop_last() =~= ws.subrange(1, k as int));
        if k > 1 {
            proof {
                reveal_strlit(" ");
            }
            note.append(" ");
        }
        note.append(w);
        assert(note@ =~= join_words(part));
        k = k + 1;
    }
    Ok(Entry { amount, note: Some(note) })
}

} // verus!
