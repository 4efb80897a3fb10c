//! A per-account event registry: each account owns one event record made of a
//! price and a set of invited guests. Records are kept in a compact persistent
//! shape and exchanged with callers in a text-friendly view shape.

pub mod contract;
pub mod event;
pub mod event_json;
pub mod price;
pub mod storage_key;

