//! Verified core of a shared-expense ledger.
//!
//! Groups hold members and transactions; a transaction is paid by one member
//! and shared out among any number of them. Clients work offline and send
//! their changes later, so every write carries the time of the change, and the
//! later change wins in whatever order the writes arrive.
//!
//! - [`number`] and [`decimal`]: exact decimal amounts.
//! - [`timestamp`]: the times by which changes are ordered.
//! - [`entrypoint`]: what callers send and receive, the validity rules of a
//!   transaction, and the errors a request can end in.
//! - [`ledger`]: what is stored, and how each request changes it.
//! - [`settlement`] and [`settlement_laws`]: balances per member, and the
//!   transfers that settle them.
//! - [`table`]: rows in a list, found and kept by their keys.

pub mod decimal;
pub mod entrypoint;
mod identifier;
pub mod ledger;
pub mod number;
pub mod settlement;
pub mod settlement_laws;
pub mod table;
pub mod timestamp;
