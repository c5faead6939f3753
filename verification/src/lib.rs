//! A bill-splitting engine: a line grammar for entering charges, a per-person
//! ledger, the reconciliation of charges imported from a receipt, and the
//! proportional apportionment of a bill's fees.

pub mod actions;
pub mod amount;
pub mod billing;
pub mod charges;
pub mod indices;
pub mod ledger;
pub mod ocr;
pub mod text;
pub mod utils;
