//! Inventory of IP addresses: record files, lookup, search and paging.

pub mod text;
pub mod path;
pub mod entry;
pub mod number;
pub mod search;
pub mod page;
pub mod codec;
pub mod store;
pub mod settings;
pub mod message;
pub mod edit;
pub mod slack;
