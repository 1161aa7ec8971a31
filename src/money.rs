//! Money amounts: entered text to minor units (cents) and back.
use vstd::prelude::*;

verus! {

/// Why an entered amount was refused.
#[derive(Debug, Clone, Copy, PartialEq, Eq, Structural)]
pub enum AmountError {
    /// The text is not a decimal number with at most two fraction digits.
    Malformed,
    /// The value does not fit in 64-bit signed minor units.
    OutOfRange,
}

pub open spec fn is_digit(c: char) -> bool {
    '0' <= c && c <= '9'
}

pub open spec fn is_separator(c: char) -> bool {
    c == '.' || c == ','
}

pub open spec fn digit_value(c: char) -> int {
    c as int - '0' as int
}

pub open spec fn all_digits(s: Seq<char>) -> bool {
    forall|i: int| 0 <= i < s.len() ==> #[trigger] is_digit(s[i])
}

/// The number that a string of decimal digits denotes.
pub open spec fn digits_value(s: Seq<char>) -> int
    decreases s.len(),
{
    if s.len() == 0 {
        0
    } else {
        digits_value(s.drop_last()) * 10 + digit_value(s.last())
    }
}

/// Minor units of an unsigned amount: digits, then optionally a `.` or `,`
/// followed by one or two digits.
pub open spec fn unsigned_cents(b: Seq<char>) -> Option<int> {
    let n = b.len();
    if n >= 4 && is_separator(b[n - 3]) && is_digit(b[n - 2]) && is_digit(b[n - 1])
        && all_digits(b.subrange(0, n - 3)) {
        Some(digits_value(b.subrange(0, n - 3)) * 100 + digits_value(b.subrange(n - 2, n as int)))
    } else if n >= 3 && is_separator(b[n - 2]) && is_digit(b[n - 1]) && all_digits(
        b.subrange(0, n - 2),
    ) {
        Some(digits_value(b.subrange(0, n - 2)) * 100 + digit_value(b[n - 1]) * 10)
    } else if n >= 1 && all_digits(b) {
        Some(digits_value(b) * 100)
    } else {
        None
    }
}

pub open spec fn is_minus(s: Seq<char>) -> bool {
    s.len() > 0 && s[0] == '-'
}

/// The signed minor units that an entered text denotes, before any range limit.
pub open spec fn signed_cents(s: Seq<char>) -> Option<int> {
    if is_minus(s) {
        match unsigned_cents(s.drop_first()) {
            Some(v) => Some(-v),
            None => None,
        }
    } else {
        unsigned_cents(s)
    }
}

pub open spec fn fits_i64(v: int) -> bool {
    i64::MIN <= v && v <= i64::MAX
}

/// What `parse_amount` returns for a text.
pub open spec fn amount_of(s: Seq<char>) -> Result<int, AmountError> {
    match signed_cents(s) {
        None => Err(AmountError::Malformed),
        Some(v) => if fits_i64(v) {
            Ok(v)
        } else {
            Err(AmountError::OutOfRange)
        },
    }
}

pub open spec fn digit_char(d: int) -> char {
    ('0' as int + d) as char
}

/// Decimal digits of a natural number, most significant first, no leading zero.
pub open spec fn digits_text(n: nat) -> Seq<char>
    decreases n,
{
    if n < 10 {
        seq![digit_char(n as int)]
    } else {
        digits_text(n / 10).push(digit_char((n % 10) as int))
    }
}

pub open spec fn abs(v: int) -> nat {
    if v < 0 {
        (-v) as nat
    } else {
        v as nat
    }
}

/// Major units with exactly two fraction digits: `12.50`, `-0.05`, `0.00`.
pub open spec fn amount_text(cents: int) -> Seq<char> {
    let m = abs(cents);
    let sign = if cents < 0 {
        seq!['-']
    } else {
        Seq::<char>::empty()
    };
    sign + digits_text(m / 100) + seq![
        '.',
        digit_char(((m % 100) / 10) as int),
        digit_char((m % 10) as int),
    ]
}

const SATURATION: u128 = 0x1_0000_0000_0000_0000;

/// Value of the digits `cs[lo..hi]`, capped at `SATURATION`.
fn digits_value_in(cs: &Vec<char>, lo: usize, hi: usize) -> (r: u128)
    requires
        lo <= hi <= cs@.len(),
        all_digits(cs@.subrange(lo as int, hi as int)),
    ensures
        r as int == if digits_value(cs@.subrange(lo as int, hi as int)) < SATURATION {
            digits_value(cs@.subrange(lo as int, hi as int))
        } else {
            SATURATION as int
        },
{
    let mut acc: u128 = 0;
    let mut i: usize = lo;
    while i < hi
        invariant
            lo <= i <= hi <= cs@.len(),
            all_digits(cs@.subrange(lo as int, hi as int)),
            acc as int == if digits_value(cs@.subrange(lo as int, i as int)) < SATURATION {
                digits_value(cs@.subrange(lo as int, i as int))
            } else {
                SATURATION as int
            },
        decreases hi - i,
    {
        let ghost prev = cs@.subrange(lo as int, i as int);
        let ghost next = cs@.subrange(lo as int, i + 1);
        assert(next.drop_last() =~= prev);
        assert(next.last() == cs@[i as int]);
        assert(is_digit(cs@.subrange(lo as int, hi as int)[i - lo]));
        let d = (cs[i] as u32 - '0' as u32) as u128;
        proof {
            lemma_digits_value_nonneg(prev);
        }
        if acc >= SATURATION {
            acc = SATURATION;
        } else {
            let v = acc * 10 + d;
            acc = if v >= SATURATION {
                SATURATION
            } else {
                v
            };
        }
        i = i + 1;
    }
    acc
}

proof fn lemma_digits_value_nonneg(s: Seq<char>)
    requires
        all_digits(s),
    ensures
        digits_value(s) >= 0,
    decreases s.len(),
{
    if s.len() > 0 {
        assert(is_digit(s[s.len() - 1]));
        assert(all_digits(s.drop_last()));
        lemma_digits_value_nonneg(s.drop_last());
    }
}

/// Whether `cs[lo..hi]` are all decimal digits.
fn all_digits_in(cs: &Vec<char>, lo: usize, hi: usize) -> (r: bool)
    requires
        lo <= hi <= cs@.len(),
    ensures
        r == all_digits(cs@.subrange(lo as int, hi as int)),
{
    let mut i: usize = lo;
    while i < hi
        invariant
            lo <= i <= hi <= cs@.len(),
            all_digits(cs@.subrange(lo as int, i as int)),
        decreases hi - i,
    {
        if !('0' <= cs[i] && cs[i] <= '9') {
            assert(!is_digit(cs@.subrange(lo as int, hi as int)[i - lo]));
            return false;
        }
        assert(all_digits(cs@.subrange(lo as int, i + 1)));
        i = i + 1;
    }
    true
}

fn chars_of(text: &str) -> (r: Vec<char>)
    ensures
        r@ == text@,
{
    let n = text.unicode_len();
    let mut cs: Vec<char> = Vec::new();
    let mut i: usize = 0;
    while i < n
        invariant
            n == text@.len(),
            i <= n,
            cs@ == text@.subrange(0, i as int),
        decreases n - i,
    {
        cs.push(text.get_char(i));
        i = i + 1;
        assert(cs@ =~= text@.subrange(0, i as int));
    }
    assert(cs@ =~= text@);
    cs
}

/// Reads an entered amount (`12.50`, `12,5`, `-3`) as minor units.
/// A `,` is accepted in place of the decimal point. The text is refused, not
/// rounded, when it has more than two fraction digits (`12.345`), since a
/// silently rounded amount would be recorded without the user seeing it; a
/// bare point (`.5`, `5.`) and a `+` sign are refused as well.
pub fn parse_amount(text: &str) -> (r: Result<i64, AmountError>)
    ensures
        match r {
            Ok(v) => amount_of(text@) == Ok::<int, AmountError>(v as int),
            Err(e) => amount_of(text@) == Err::<int, AmountError>(e),
        },
{
    let cs = chars_of(text);
    let total = cs.len();
    let neg = total > 0 && cs[0] == '-';
    let start: usize = if neg {
        1
    } else {
        0
    };
    let ghost s = text@;
    let ghost b = if neg {
        s.drop_first()
    } else {
        s
    };
    assert(b =~= cs@.subrange(start as int, total as int));
    let n = total - start;
    proof {
        if n >= 4 {
            assert(b.subrange(0, n - 3) =~= cs@.subrange(start as int, total - 3));
        }
        if n >= 3 {
            assert(b.subrange(0, n - 2) =~= cs@.subrange(start as int, total - 2));
        }
    }
    let mut magnitude: u128;
    if n >= 4 && (cs[total - 3] == '.' || cs[total - 3] == ',') && '0' <= cs[total - 2]
        && cs[total - 2] <= '9' && '0' <= cs[total - 1] && cs[total - 1] <= '9'
        && all_digits_in(&cs, start, total - 3) {
        assert(b.subrange(0, n - 3) =~= cs@.subrange(start as int, total - 3));
        assert(b.subrange(n - 2, n as int) =~= cs@.subrange(total - 2, total as int));
        let whole = digits_value_in(&cs, start, total - 3);
        let frac = digits_value_in(&cs, total - 2, total);
        proof {
            lemma_digits_value_nonneg(b.subrange(0, n - 3));
            let f = b.subrange(n - 2, n as int);
            assert(f.drop_last().drop_last() =~= Seq::<char>::empty());
            assert(all_digits(f));
        }
        magnitude = whole * 100 + frac;
    } else if n >= 3 && (cs[total - 2] == '.' || cs[total - 2] == ',') && '0' <= cs[total - 1]
        && cs[total - 1] <= '9' && all_digits_in(&cs, start, total - 2) {
        assert(b.subrange(0, n - 2) =~= cs@.subrange(start as int, total - 2));
        let whole = digits_value_in(&cs, start, total - 2);
        proof {
            lemma_digits_value_nonneg(b.subrange(0, n - 2));
        }
        let d = (cs[total - 1] as u32 - '0' as u32) as u128;
        magnitude = whole * 100 + d * 10;
    } else if n >= 1 && all_digits_in(&cs, start, total) {
        let whole = digits_value_in(&cs, start, total);
        proof {
            lemma_digits_value_nonneg(b);
        }
        magnitude = whole * 100;
    } else {
        return Err(AmountError::Malformed);
    }
    if neg {
        if magnitude > 0x8000_0000_0000_0000 {
            Err(AmountError::OutOfRange)
        } else {
            Ok((0 - (magnitude as i128)) as i64)
        }
    } else {
        if magnitude > 0x7fff_ffff_ffff_ffff {
            Err(AmountError::OutOfRange)
        } else {
            Ok(magnitude as i64)
        }
    }
}

fn digit_str(d: u64) -> (r: &'static str)
    requires
        d < 10,
    ensures
        r@ == seq![digit_char(d as int)],
{
    proof {
        reveal_strlit("0");
        reveal_strlit("1");
        reveal_strlit("2");
        reveal_strlit("3");
        reveal_strlit("4");
        reveal_strlit("5");
        reveal_strlit("6");
        reveal_strlit("7");
        reveal_strlit("8");
        reveal_strlit("9");
    }
    let r = match d {
        0 => "0",
        1 => "1",
        2 => "2",
        3 => "3",
        4 => "4",
        5 => "5",
        6 => "6",
        7 => "7",
        8 => "8",
        _ => "9",
    };
    assert(r@ =~= seq![digit_char(d as int)]);
    r
}

fn push_digits(out: &mut String, n: u64)
    ensures
        final(out)@ == old(out)@ + digits_text(n as nat),
    decreases n,
{
    if n >= 10 {
        push_digits(out, n / 10);
    }
    out.append(digit_str(n % 10));
    assert(final(out)@ =~= old(out)@ + digits_text(n as nat));
}

/// Major-unit text of an amount in minor units, with two fraction digits:
/// `1250` gives `12.50`, `-5` gives `-0.05`.
pub fn cents_to_full(cents: i64) -> (r: String)
    ensures
        r@ == amount_text(cents as int),
{
    let m: u64 = if cents < 0 {
        (0 - (cents as i128)) as u64
    } else {
        cents as u64
    };
    let mut out = String::new();
    if cents < 0 {
        proof {
            reveal_strlit("-");
        }
        out.append("-");
    }
    push_digits(&mut out, m / 100);
    proof {
        reveal_strlit(".");
    }
    out.append(".");
    out.append(digit_str((m % 100) / 10));
    out.append(digit_str(m % 10));
    assert(out@ =~= amount_text(cents as int));
    out
}

proof fn lemma_digit_char(d: int)
    requires
        0 <= d < 10,
    ensures
        is_digit(digit_char(d)),
        digit_value(digit_char(d)) == d,
{
}

proof fn lemma_digits_text(n: nat)
    ensures
        digits_text(n).len() >= 1,
        all_digits(digits_text(n)),
        digits_value(digits_text(n)) == n,
    decreases n,
{
    if n >= 10 {
        lemma_digits_text(n / 10);
        lemma_digit_char((n % 10) as int);
        let t = digits_text(n);
        assert(t.drop_last() =~= digits_text(n / 10));
        assert(t.last() == digit_char((n % 10) as int));
        assert(digits_value(t) == digits_value(t.drop_last()) * 10 + digit_value(t.last()));
        assert forall|i: int| 0 <= i < t.len() implies #[trigger] is_digit(t[i]) by {
            if i < t.len() - 1 {
                assert(t[i] == digits_text(n / 10)[i]);
            }
        }
    } else {
        lemma_digit_char(n as int);
        let t = digits_text(n);
        assert(t.drop_last() =~= Seq::<char>::empty());
        assert(digits_value(t.drop_last()) == 0);
        assert(digits_value(t) == digits_value(t.drop_last()) * 10 + digit_value(t.last()));
    }
}

/// Formatting an amount and reading the text back gives the same amount.
pub proof fn lemma_amount_round_trip(cents: i64)
    ensures
        amount_of(amount_text(cents as int)) == Ok::<int, AmountError>(cents as int),
{
    let c = cents as int;
    let m = abs(c);
    let w = digits_text(m / 100);
    let tail = seq!['.', digit_char(((m % 100) / 10) as int), digit_char((m % 10) as int)];
    let b = w + tail;
    lemma_digits_text(m / 100);
    lemma_digit_char(((m % 100) / 10) as int);
    lemma_digit_char((m % 10) as int);
    let n = b.len();
    assert(b.subrange(0, n - 3) =~= w);
    let f = b.subrange(n - 2, n as int);
    assert(f.drop_last().drop_last() =~= Seq::<char>::empty());
    assert(f.drop_last() =~= seq![digit_char(((m % 100) / 10) as int)]);
    assert(digits_value(f.drop_last().drop_last()) == 0);
    assert(digits_value(f.drop_last()) == digits_value(f.drop_last().drop_last()) * 10
        + digit_value(f.drop_last().last()));
    assert(digits_value(f) == digits_value(f.drop_last()) * 10 + digit_value(f.last()));
    assert(digits_value(f) == m % 100);
    assert(unsigned_cents(b) == Some(m as int));
    if c < 0 {
        assert(amount_text(c) =~= seq!['-'] + b);
        assert(amount_text(c).drop_first() =~= b);
    } else {
        assert(amount_text(c) =~= b);
        if b.len() > 0 {
            assert(b[0] != '-') by {
                assert(b[0] == w[0]);
                assert(is_digit(w[0]));
            }
        }
    }
}

/// Digits without a leading zero, or the single digit `0`.
pub open spec fn is_plain_number(w: Seq<char>) -> bool {
    w.len() >= 1 && all_digits(w) && (w.len() == 1 || w[0] != '0')
}

/// The texts `cents_to_full` writes: an optional `-`, a plain number, a `.`
/// and two digits; a minus sign only before a nonzero amount.
pub open spec fn is_display_text(s: Seq<char>) -> bool {
    let b = if is_minus(s) {
        s.drop_first()
    } else {
        s
    };
    let n = b.len();
    &&& n >= 4
    &&& b[n - 3] == '.'
    &&& is_digit(b[n - 2])
    &&& is_digit(b[n - 1])
    &&& is_plain_number(b.subrange(0, n - 3))
    &&& is_minus(s) ==> unsigned_cents(b) != Some(0int)
}

proof fn lemma_digit_of_char(c: char)
    requires
        is_digit(c),
    ensures
        digit_char(digit_value(c)) == c,
        0 <= digit_value(c) < 10,
{
}

proof fn lemma_leading_digit_positive(w: Seq<char>)
    requires
        w.len() >= 1,
        all_digits(w),
        w[0] != '0',
    ensures
        digits_value(w) >= 1,
    decreases w.len(),
{
    if w.len() > 1 {
        let p = w.drop_last();
        assert(p[0] == w[0]);
        assert(all_digits(p));
        lemma_leading_digit_positive(p);
        assert(is_digit(w[w.len() - 1]));
        assert(digits_value(w) == digits_value(p) * 10 + digit_value(w.last()));
    } else {
        assert(w.drop_last() =~= Seq::<char>::empty());
        assert(digits_value(w.drop_last()) == 0);
        assert(is_digit(w[0]));
        assert(digits_value(w) == digits_value(w.drop_last()) * 10 + digit_value(w.last()));
    }
}

proof fn lemma_plain_number_text(w: Seq<char>)
    requires
        is_plain_number(w),
    ensures
        digits_value(w) >= 0,
        digits_text(digits_value(w) as nat) == w,
    decreases w.len(),
{
    let last = w.last();
    assert(is_digit(w[w.len() - 1]));
    lemma_digit_of_char(last);
    if w.len() == 1 {
        assert(w.drop_last() =~= Seq::<char>::empty());
        assert(digits_value(w.drop_last()) == 0);
        assert(digits_value(w) == digits_value(w.drop_last()) * 10 + digit_value(last));
        assert(digits_value(w) == digit_value(last));
        assert(digits_text(digits_value(w) as nat) =~= w);
    } else {
        let p = w.drop_last();
        assert(p[0] == w[0]);
        assert(all_digits(p));
        lemma_plain_number_text(p);
        lemma_leading_digit_positive(p);
        let v = digits_value(w);
        assert(v == digits_value(p) * 10 + digit_value(last));
        assert(v >= 10);
        assert((v as nat) / 10 == digits_value(p));
        assert((v as nat) % 10 == digit_value(last));
        assert(digits_text(v as nat) == digits_text(((v as nat) / 10) as nat).push(
            digit_char(((v as nat) % 10) as int),
        ));
        assert(w =~= p.push(last));
    }
}

/// An amount entered in display form (`12.50`, `-0.05`) reads as minor
/// units whose display text is the entered text, character for character.
pub proof fn lemma_display_text_round_trip(s: Seq<char>)
    requires
        is_display_text(s),
        amount_of(s) is Ok,
    ensures
        amount_text(amount_of(s)->Ok_0) == s,
{
    let neg = is_minus(s);
    let b = if neg {
        s.drop_first()
    } else {
        s
    };
    let n = b.len();
    let w = b.subrange(0, n - 3);
    let f = b.subrange(n - 2, n as int);
    lemma_plain_number_text(w);
    lemma_digit_of_char(b[n - 2]);
    lemma_digit_of_char(b[n - 1]);
    assert(f.drop_last().drop_last() =~= Seq::<char>::empty());
    assert(f.drop_last() =~= seq![b[n - 2]]);
    assert(digits_value(f.drop_last().drop_last()) == 0);
    assert(digits_value(f.drop_last()) == digit_value(b[n - 2]));
    let d1 = digit_value(b[n - 2]);
    let d2 = digit_value(b[n - 1]);
    assert(digits_value(f) == d1 * 10 + d2);
    assert(is_separator(b[n - 3]));
    assert(all_digits(f));
    let m = digits_value(w) * 100 + d1 * 10 + d2;
    assert(unsigned_cents(b) == Some(m));
    let c = amount_of(s)->Ok_0;
    assert(abs(c) == m);
    assert(m / 100 == digits_value(w));
    assert(m % 100 == d1 * 10 + d2);
    assert((m % 100) / 10 == d1);
    assert(m % 10 == d2);
    let tail = seq!['.', digit_char(d1), digit_char(d2)];
    assert(b =~= w + tail);
    if neg {
        assert(c < 0);
        assert(s =~= seq!['-'] + b);
    } else {
        assert(c >= 0);
        assert(s =~= b);
    }
}

} // verus!
