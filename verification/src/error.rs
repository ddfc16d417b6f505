use crate::storage::page::PageId;
use vstd::prelude::*;

verus! {

/// What can go wrong when pages are read, written or searched.
#[derive(Clone, Copy, Debug, PartialEq, Eq, Structural)]
pub enum ShuError {
    /// The storage holds no bytes for the page.
    Io { page_id: PageId },
    /// The page's contents contradict themselves or their place in the tree.
    CorruptedPage { page_id: PageId },
    /// The page id is not below the page count.
    PageNotFound { page_id: PageId },
    /// The page type byte is unknown, or not the one that the operation needs.
    InvalidPageType,
    /// A byte range runs backwards or past the end of the page body.
    InvalidBodyRange { page_id: PageId, start: usize, end: usize, body_len: usize },
    /// The bytes to be written do not fill the range they are written to.
    BodyWriteLengthMismatch { page_id: PageId, range_len: usize, bytes_len: usize },
    /// No record has this index.
    IndexOutOfRange,
    /// A key or value is longer than a cell can describe.
    CellTooLarge { page_id: PageId, key_len: usize, value_len: usize },
    /// The records do not fit the page.
    PageFull { page_id: PageId, needed: usize, available: usize },
    /// A page other than the root is out of balance and has no parent on the path.
    Rebalance,
    /// No further page can be counted.
    TooManyPages,
}

} // verus!
