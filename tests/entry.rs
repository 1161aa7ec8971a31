use budgetbeast::entry::{parse_entry, EntryError};
use budgetbeast::money::AmountError;

#[test]
fn amount_and_note() {
    let e = parse_entry("12.50 lunch  with\tAnn ").unwrap();
    assert_eq!(e.amount, 1250);
    assert_eq!(e.note.as_deref(), Some("lunch with Ann"));
}

#[test]
fn amount_alone() {
    let e = parse_entry("  7,5 ").unwrap();
    assert_eq!(e.amount, 750);
    assert!(e.note.is_none());
}

#[test]
fn empty_command() {
    assert!(matches!(parse_entry(""), Err(EntryError::Empty)));
    assert!(matches!(parse_entry(" \n\t\u{3000}"), Err(EntryError::Empty)));
}

#[test]
fn bad_amount_word() {
    assert!(matches!(parse_entry("lunch 12"), Err(EntryError::Amount(AmountError::Malformed))));
    assert!(matches!(
        parse_entry("999999999999999999 x"),
        Err(EntryError::Amount(AmountError::OutOfRange))
    ));
}
