//! Billing core of a subscription platform: proration of line items, the
//! ledger of seat (slot) changes, and the lifecycle of invoices.
pub mod dates;
pub mod billing;
pub mod invoices;
pub mod ledger;
pub mod organizations;
pub mod scheduler;
