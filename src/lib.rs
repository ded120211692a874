//! A single-file key/value table engine: fixed-size pages holding the nodes
//! of a B+tree keyed by row id, a page cache over the file image, and a
//! cursor-based engine for insertion and ordered scans.

pub mod layout;
pub mod page;
pub mod row;
pub mod node;
pub mod pager;
pub mod btree;
pub mod order;
pub mod statement;
