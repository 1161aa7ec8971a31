//! Budget bookkeeping core: amounts in minor units, a one-shot menu selection
//! cache, a ledger of records with a per-row sync watermark, and the outbox
//! worker that pushes unsynced records to a spreadsheet.
pub mod config;
pub mod entry;
pub mod ledger;
pub mod messages;
pub mod money;
pub mod selection;
pub mod sync;
