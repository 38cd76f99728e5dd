//! An in-memory key-value server core speaking the RESP wire protocol:
//! a codec between bytes and protocol values, a key-value store, and a
//! command dispatcher that runs decoded commands against the store.

pub mod value;

pub mod codec;

pub mod store;

pub mod command;

pub mod round_trip;
