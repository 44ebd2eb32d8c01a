//! Pricing of invoice line items with fixed-point money and quantities,
//! plus readers for headered CSV and JSON invoices.
pub mod amount;
pub mod csv;
pub mod invoice;
pub mod json;
pub mod pricing;
pub mod text;

pub use amount::{Money, ParseMoneyError, ParseQuantityError, Quantity};
pub use pricing::{LineItem, LineItemError, LineTotals};
