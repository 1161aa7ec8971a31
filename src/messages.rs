//! The texts the bot answers with.
use vstd::prelude::*;
use crate::money::{amount_text, cents_to_full};

verus! {

/// The characters that Telegram's MarkdownV2 style reserves.
pub open spec fn md_special(c: char) -> bool {
    c == '_' || c == '*' || c == '[' || c == ']' || c == '(' || c == ')' || c == '~' || c == '`'
        || c == '>' || c == '#' || c == '+' || c == '-' || c == '=' || c == '|' || c == '{' || c
        == '}' || c == '.' || c == '!'
}

/// `s` with a backslash before each reserved character.
pub open spec fn md_escaped(s: Seq<char>) -> Seq<char>
    decreases s.len(),
{
    if s.len() == 0 {
        Seq::<char>::empty()
    } else {
        md_escaped(s.drop_last()) + if md_special(s.last()) {
            seq!['\\', s.last()]
        } else {
            seq![s.last()]
        }
    }
}

/// Relies on `teloxide::utils::markdown::escape`: each character that
/// `md_special` lists (the eighteen MarkdownV2 reserved characters, the
/// backtick among them) gets a backslash before it; every other character is
/// kept, in order.
#[verifier::external_body]
fn escape_markdown(s: &str) -> (r: String)
    ensures
        r@ == md_escaped(s@),
{
    teloxide::utils::markdown::escape(s)
}

pub open spec fn added_text_of(category: Seq<char>, cents: int) -> Seq<char> {
    "✅ *Added transaction:*\n*Category:* "@ + category + "\n*Amount:* "@ + md_escaped(
        amount_text(cents),
    ) + "\n"@
}

/// The confirmation shown once a chosen transaction is stored.
pub fn added_text(category: &str, cents: i64) -> (r: String)
    ensures
        r@ == added_text_of(category@, cents as int),
{
    let amount = cents_to_full(cents);
    let mut out = String::new();
    out.append("✅ *Added transaction:*\n*Category:* ");
    out.append(category);
    out.append("\n*Amount:* ");
    out.append(escape_markdown(amount.as_str()).as_str());
    out.append("\n");
    assert(out@ =~= added_text_of(category@, cents as int));
    out
}

/// The answer to a weekly summary request: `123.45 RSD`.
pub fn weekly_text(total: i64) -> (r: String)
    ensures
        r@ == amount_text(total as int) + " RSD"@,
{
    let mut out = cents_to_full(total);
    out.append(" RSD");
    out
}

} // verus!
