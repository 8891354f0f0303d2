//! A file index kept live by directory watches, and the query language that
//! ranks its entries.

pub mod text;
pub mod path;
pub mod query;
pub mod select;
pub mod ipc;
pub mod find;
pub mod config;
pub mod index;
pub mod scan;
pub mod serve;
pub mod events;
