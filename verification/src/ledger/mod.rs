//! The project ledger: plan, cursor, marks, issues and check receipts.
pub mod model;
pub mod blueprint;
pub mod steps;
pub mod session;
pub mod laws;
pub mod amendments;
pub mod checks;
pub mod scope;
pub mod errors;
