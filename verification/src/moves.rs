//! Move lists: a `smallvec::SmallVec` with room for 128 cells before it
//! spills to the heap, seen as a sequence of cell indices. Nothing in this
//! file is proved; each contract restates what the vector's own
//! implementation does.
use smallvec::SmallVec;
use vstd::prelude::*;

verus! {

/// A list of cells to try, held in a `SmallVec`. The vector is hidden
/// from the verifier; its items are read through `move_items`.
#[verifier::external_body]
pub struct MoveList {
    items: SmallVec<[usize; 128]>,
}

/// The cells of a move list, first to last.
pub uninterp spec fn move_items(list: MoveList) -> Seq<usize>;

/// `SmallVec::from_vec`: the same items in the same order.
#[verifier::external_body]
pub(crate) fn moves_from_vec(cells: Vec<usize>) -> (list: MoveList)
    ensures
        move_items(list) == cells@,
{
    MoveList { items: SmallVec::from_vec(cells) }
}

/// `SmallVec::len`: the number of items held.
#[verifier::external_body]
pub(crate) fn moves_len(list: &MoveList) -> (len: usize)
    ensures
        len == move_items(*list).len(),
{
    list.items.len()
}

/// Indexing a `SmallVec`, which panics past its length: the item at `i`.
#[verifier::external_body]
pub(crate) fn moves_at(list: &MoveList, i: usize) -> (cell: usize)
    requires
        i < move_items(*list).len(),
    ensures
        cell == move_items(*list)[i as int],
{
    list.items[i]
}

} // verus!
