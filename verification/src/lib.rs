//! A deterministic account ledger with an embedded stack-machine contract
//! engine: 256-bit words, gas metering, bytecode interpretation, and
//! commit-or-discard nested call semantics.

pub mod account;
pub mod dispatch;
pub mod exit;
pub mod gas;
pub mod interp;
pub mod ledger;
pub mod machine;
pub mod word;
