//! Accounting ledger of a relay service: consumers pre-pay a balance, relayers submit transfers
//! on their behalf, and every relayed transfer moves one fixed fee from the sender's balance to
//! the relayer's earnings.
//!
//! The ledger lives in the data of one host account as a length-prefixed byte layout. Each
//! instruction decodes it, applies one transition and writes it back, or fails and leaves every
//! account as it was.
pub mod balances;
pub mod bytes;
pub mod error;
pub mod instruction;
pub mod keys;
pub mod processor;
pub mod state;
pub mod wire;
