//! The structured diff between two key orders: removal, move and addition
//! instructions, plus a full-clear marker.

use vstd::prelude::*;

verus! {

/// An instruction to remove the item at position `at` of the old order.
#[derive(Clone, Copy, Debug, PartialEq, Eq, Structural)]
pub struct DiffOpRemove {
    pub at: usize,
}

/// An instruction to move a contiguous range of `len` items whose first item
/// stands at position `from` of the old order to position `to` of the new
/// order.  `move_in_dom` tells whether the move needs a real-tree mutation or
/// only a bookkeeping reindex.
#[derive(Clone, Copy, Debug, PartialEq, Eq, Structural)]
pub struct DiffOpMove {
    /// The position this range starts at relative to the old order.
    pub from: usize,
    /// The number of items included in this range.
    pub len: usize,
    /// The position this range will be moved to relative to the new order.
    pub to: usize,
    /// Marks this move to be applied to the live tree, or just to the
    /// retained storage.
    pub move_in_dom: bool,
}

/// An instruction to add one new item at position `at` of the new order.
#[derive(Clone, Copy, Debug, PartialEq, Eq, Structural)]
pub struct DiffOpAdd {
    pub at: usize,
    pub mode: DiffOpAddMode,
}

/// How an added item is anchored into the live tree.
#[derive(Clone, Copy, Debug, PartialEq, Eq, Structural)]
pub enum DiffOpAddMode {
    /// Mount before the nearest following mounted sibling, or before the end
    /// marker when no sibling follows.
    Normal,
    /// Mount directly before the end marker, without a sibling search: the
    /// fast path when a list grows at its tail or from nothing.
    Append,
}

/// The operations needed to bring an old key order to a new one.
#[derive(Debug)]
pub struct Diff {
    pub removed: Vec<DiffOpRemove>,
    pub moved: Vec<DiffOpMove>,
    /// The total number of single items moved, over all ranges of `moved`.
    pub items_to_move: usize,
    pub added: Vec<DiffOpAdd>,
    /// True when the new order is empty and the old one was not: every
    /// retained item is dropped wholesale.
    pub clear: bool,
}

impl Default for DiffOpMove {
    fn default() -> (r: Self)
        ensures
            r.from == 0 && r.to == 0 && r.len == 1 && r.move_in_dom,
    {
        DiffOpMove { from: 0, to: 0, len: 1, move_in_dom: true }
    }
}

impl Default for DiffOpAddMode {
    fn default() -> (r: Self)
        ensures
            r == DiffOpAddMode::Normal,
    {
        DiffOpAddMode::Normal
    }
}

impl Default for DiffOpAdd {
    fn default() -> (r: Self)
        ensures
            r.at == 0 && r.mode == DiffOpAddMode::Normal,
    {
        DiffOpAdd { at: 0, mode: DiffOpAddMode::Normal }
    }
}

impl Default for Diff {
    fn default() -> (r: Self)
        ensures
            r.removed@ == Seq::<DiffOpRemove>::empty(),
            r.moved@ == Seq::<DiffOpMove>::empty(),
            r.added@ == Seq::<DiffOpAdd>::empty(),
            r.items_to_move == 0,
            !r.clear,
    {
        Diff {
            removed: Vec::new(),
            moved: Vec::new(),
            items_to_move: 0,
            added: Vec::new(),
            clear: false,
        }
    }
}

} // verus!
