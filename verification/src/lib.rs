//! Account catalogue and quota-aware account selection.
//!
//! The crate keeps a catalogue of authentication accounts (explicitly
//! registered credentials plus filesystem-discovered "slots") and picks, for
//! each outgoing request, the account best able to serve it right now:
//! favoring accounts with quota remaining, cycling fairly among
//! equally-eligible accounts, and temporarily excluding accounts that were
//! just rate-limited.

pub mod account;
pub mod catalogue;
pub mod discovery;
pub mod num;
pub mod order;
pub mod scheduler;
pub mod slots;
pub mod slug;
pub mod text;
