//! A multi-version, three-column table and the Percolator transaction engine on top of it.
//!
//! * [`lex`] orders byte strings and versioned keys.
//! * [`cell`] holds the keys and values that a column stores.
//! * [`model`] is the table as mathematics, which the contracts speak of.
//! * [`column`] keeps one column's cells in key order.
//! * [`table`] is the table of three columns.
//! * [`msg`] holds the requests, replies and errors of the services.
//! * [`clock`] reads the wall clock.
//! * [`oracle`] hands out timestamps.
//! * [`protocol`] states the transaction protocol on the mathematical table.
//! * [`storage`] is the transaction engine.
//! * [`invariants`] proves what holds of the table after any run of requests.
pub mod cell;
pub mod clock;
pub mod column;
pub mod invariants;
pub mod lex;
pub mod model;
pub mod msg;
pub mod oracle;
pub mod protocol;
pub mod storage;
pub mod table;
