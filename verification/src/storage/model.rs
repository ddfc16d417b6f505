//! What pages hold, as mathematical values.
use crate::storage::page::PageId;
use vstd::prelude::*;

verus! {

/// A key and its value.
#[verifier::ext_equal]
pub struct LeafCell {
    pub key: Seq<u8>,
    pub value: Seq<u8>,
}

/// A child page and the greatest key that its subtree may hold.
#[verifier::ext_equal]
pub struct InternalCell {
    pub child: PageId,
    pub separator: Seq<u8>,
}

/// The contents of an internal page.
#[verifier::ext_equal]
pub struct InternalNode {
    pub cells: Seq<InternalCell>,
    pub right_child: PageId,
}

/// What each element of a sequence stands for.
pub open spec fn views<T: View>(s: Seq<T>) -> Seq<T::V> {
    Seq::new(s.len(), |i: int| s[i]@)
}

pub broadcast proof fn views_push<T: View>(s: Seq<T>, x: T)
    ensures
        #[trigger] views(s.push(x)) == views(s).push(x@),
{
    assert(views(s.push(x)) =~= views(s).push(x@));
}

} // verus!
