//! Typed global-state values, their canonical binary encoding, and the
//! capability-checked storage operations a sandboxed contract issues.

pub mod account;
pub mod bytesrepr;
pub mod contract_api;
pub mod key;
pub mod named_keys;
pub mod order;
pub mod storage;
pub mod truncation;
pub mod uref;
pub mod value;
