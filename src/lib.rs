//! A bounded store of named price records with owner-gated mutation, and a
//! single-record cache that mirrors one entry of such a store.

pub mod price;
pub mod gate;
pub mod codec;
pub mod std_reference_basic;
pub mod keeper_laws;
pub mod simple_price_db;
