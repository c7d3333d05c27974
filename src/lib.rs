//! A small embedded book store: keyed tables, a self-describing byte
//! encoding of the whole database, and the commit rules of a store that
//! persists every mutation before making it visible.

pub mod book;
pub mod codec;
pub mod database;
pub mod store;
pub mod table;
