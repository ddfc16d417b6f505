//! A page-based key-value store: fixed-size pages, slotted leaf and internal
//! pages, a page cache with its meta page, and a B-tree over them.
//!
//! The library works on pages in memory. Reading pages from a file and writing
//! them back is left to its user.
pub mod error;
pub mod storage;
