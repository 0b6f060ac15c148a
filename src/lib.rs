//! Key-slot management for a PIV hardware token.
//!
//! The token offers a small pool of key slots, each paired with a data-object
//! slot that holds a serialized [`codec::KeyRecord`]. The modules here decide
//! everything about that pool from plain values: the caller reads the object
//! slots, asks the library what to do, performs the device operation and
//! hands the result back.
pub mod codec;
pub mod decimal;
pub mod pem;
pub mod pool;
pub mod provider;
pub mod provision;
pub mod session;
pub mod error;
