//! The reconciler: applies a diff to the retained child-slot array and
//! produces the live-tree instructions, in the fixed order that stays
//! correct under simultaneous additions, removals and moves: clear,
//! removals, detaching every moved child, growing the array, storage-only
//! moves, real-tree moves, additions, and a final compaction of leftover
//! holes.
//!
//! The live tree itself stays outside: every mutation it needs comes back
//! as a `TreeOp` naming the affected children, for the runtime around the
//! list to perform in order.

use vstd::prelude::*;
use vstd::pervasive::VecAdditionalExecFns;
use crate::diffing::total_move_len;
use crate::ops::{Diff, DiffOpAdd, DiffOpAddMode, DiffOpMove, DiffOpRemove};
use crate::unpack::{expand_moves, unpack_moves};

verus! {

/// One live-tree instruction.  Children are named by their retained
/// handles; the marker is the list's persistent end anchor.
#[derive(Clone, Copy, Debug, PartialEq, Eq, Structural)]
pub enum TreeOp<C> {
    /// Remove this child from the live tree.
    Unmount { child: C },
    /// Insert this child immediately before a mounted sibling.
    InsertBefore { child: C, sibling: C },
    /// Insert this child immediately before the end marker.
    InsertBeforeMarker { child: C },
    /// Tell this child its new position.
    SetIndex { child: C, index: usize },
}

/// The filled slots of an array, in order: what compaction keeps.
pub open spec fn compacted<C>(s: Seq<Option<C>>) -> Seq<Option<C>>
    decreases s.len(),
{
    if s.len() == 0 {
        Seq::empty()
    } else if s.last() is Some {
        compacted(s.drop_last()).push(s.last())
    } else {
        compacted(s.drop_last())
    }
}

/// The first filled slot at or after position `i`, if any.
pub open spec fn first_some_from<C>(ch: Seq<Option<C>>, i: int) -> Option<int>
    decreases ch.len() - i,
{
    if i < 0 || i >= ch.len() {
        None
    } else if ch[i] is Some {
        Some(i)
    } else {
        first_some_from(ch, i + 1)
    }
}

/// The slot array after the first `j` removals have left their holes.
pub open spec fn removed_state<C>(base: Seq<Option<C>>, removed: Seq<DiffOpRemove>, j: int)
    -> Seq<Option<C>>
    decreases j,
{
    if j <= 0 {
        base
    } else {
        removed_state(base, removed, j - 1).update(removed[j - 1].at as int, None)
    }
}

/// The slot array after the first `j` moved children have been detached.
pub open spec fn detached_state<C>(st: Seq<Option<C>>, units: Seq<DiffOpMove>, j: int)
    -> Seq<Option<C>>
    decreases j,
{
    if j <= 0 {
        st
    } else {
        detached_state(st, units, j - 1).update(units[j - 1].from as int, None)
    }
}

/// What the first `j` unit moves carry: the child each takes out of its
/// source slot.
pub open spec fn detached_vals<C>(st: Seq<Option<C>>, units: Seq<DiffOpMove>, j: int)
    -> Seq<Option<C>>
{
    Seq::new(j as nat, |k: int| st[units[k].from as int])
}

/// The slot array grown by `extra` holes at its tail.
pub open spec fn padded_state<C>(st: Seq<Option<C>>, extra: int) -> Seq<Option<C>> {
    st + Seq::new(extra as nat, |k: int| None)
}

/// The slot array after the first `j` unit moves have placed their
/// storage-only children.
pub open spec fn storage_state<C>(st: Seq<Option<C>>, units: Seq<DiffOpMove>,
    vals: Seq<Option<C>>, j: int) -> Seq<Option<C>>
    decreases j,
{
    if j <= 0 {
        st
    } else {
        let prev = storage_state(st, units, vals, j - 1);
        if !units[j - 1].move_in_dom {
            prev.update(units[j - 1].to as int, vals[j - 1])
        } else {
            prev
        }
    }
}

/// The index-update instructions of the first `j` storage-only moves.
pub open spec fn storage_ops<C>(units: Seq<DiffOpMove>, vals: Seq<Option<C>>, j: int)
    -> Seq<TreeOp<C>>
    decreases j,
{
    if j <= 0 {
        Seq::empty()
    } else {
        let prev = storage_ops(units, vals, j - 1);
        if !units[j - 1].move_in_dom {
            prev.push(TreeOp::SetIndex { child: vals[j - 1]->0, index: units[j - 1].to })
        } else {
            prev
        }
    }
}

/// The slot array after the first `j` unit moves have placed their
/// real-tree children.
pub open spec fn dom_state<C>(st: Seq<Option<C>>, units: Seq<DiffOpMove>,
    vals: Seq<Option<C>>, j: int) -> Seq<Option<C>>
    decreases j,
{
    if j <= 0 {
        st
    } else {
        let prev = dom_state(st, units, vals, j - 1);
        if units[j - 1].move_in_dom {
            prev.update(units[j - 1].to as int, vals[j - 1])
        } else {
            prev
        }
    }
}

/// The instructions of the first `j` real-tree moves: when the list is
/// mounted, each child is inserted before the nearest following filled
/// slot's child — or the end marker when none follows — and every moved
/// child learns its new position either way.
pub open spec fn dom_ops<C>(st: Seq<Option<C>>, units: Seq<DiffOpMove>,
    vals: Seq<Option<C>>, mounted: bool, j: int) -> Seq<TreeOp<C>>
    decreases j,
{
    if j <= 0 {
        Seq::empty()
    } else {
        let prev_ops = dom_ops(st, units, vals, mounted, j - 1);
        let u = units[j - 1];
        if u.move_in_dom {
            let prev_st = dom_state(st, units, vals, j - 1);
            let child = vals[j - 1]->0;
            let mount_ops: Seq<TreeOp<C>> = if mounted {
                match first_some_from(prev_st, u.to as int) {
                    Some(s) => seq![TreeOp::InsertBefore { child, sibling: prev_st[s]->0 }],
                    None => seq![TreeOp::InsertBeforeMarker { child }],
                }
            } else {
                Seq::empty()
            };
            prev_ops + mount_ops + seq![TreeOp::SetIndex { child, index: u.to }]
        } else {
            prev_ops
        }
    }
}

/// The slot array after the first `j` additions have filled their slots.
pub open spec fn added_state<C>(st: Seq<Option<C>>, added: Seq<DiffOpAdd>,
    new: Seq<Option<C>>, j: int) -> Seq<Option<C>>
    decreases j,
{
    if j <= 0 {
        st
    } else {
        added_state(st, added, new, j - 1).update(
            added[j - 1].at as int,
            new[added[j - 1].at as int],
        )
    }
}

/// The instructions of the first `j` additions, when the list is mounted:
/// a normal addition mounts before the nearest following filled slot's
/// child or the end marker, an append mounts directly before the marker.
pub open spec fn added_ops<C>(st: Seq<Option<C>>, added: Seq<DiffOpAdd>,
    new: Seq<Option<C>>, mounted: bool, j: int) -> Seq<TreeOp<C>>
    decreases j,
{
    if j <= 0 {
        Seq::empty()
    } else {
        let prev_ops = added_ops(st, added, new, mounted, j - 1);
        let a = added[j - 1];
        let child = new[a.at as int]->0;
        if mounted {
            let prev_st = added_state(st, added, new, j - 1);
            match a.mode {
                DiffOpAddMode::Normal => match first_some_from(prev_st, a.at as int) {
                    Some(s) => prev_ops.push(
                        TreeOp::InsertBefore { child, sibling: prev_st[s]->0 },
                    ),
                    None => prev_ops.push(TreeOp::InsertBeforeMarker { child }),
                },
                DiffOpAddMode::Append => prev_ops.push(TreeOp::InsertBeforeMarker { child }),
            }
        } else {
            prev_ops
        }
    }
}

/// The unmount instructions of a wholesale clear: one per retained child,
/// in slot order.
pub open spec fn clear_ops<C>(ch: Seq<Option<C>>, j: int) -> Seq<TreeOp<C>>
    decreases j,
{
    if j <= 0 {
        Seq::empty()
    } else if ch[j - 1] is Some {
        clear_ops(ch, j - 1).push(TreeOp::Unmount { child: ch[j - 1]->0 })
    } else {
        clear_ops(ch, j - 1)
    }
}

/// The unmount instructions of the removals: one per removed child, in
/// removal order.
pub open spec fn removed_ops<C>(base: Seq<Option<C>>, removed: Seq<DiffOpRemove>, j: int)
    -> Seq<TreeOp<C>>
    decreases j,
{
    if j <= 0 {
        Seq::empty()
    } else {
        removed_ops(base, removed, j - 1).push(
            TreeOp::Unmount { child: base[removed[j - 1].at as int]->0 },
        )
    }
}

/// The slot array a reconciliation pass leaves behind: the old array —
/// emptied wholesale on a clear — with removal holes, the moved children
/// detached and re-placed at their destinations, the array grown by one
/// hole per addition, the added children in their slots, and every
/// surviving hole compacted away.
pub open spec fn reconciled_slots<C>(ch: Seq<Option<C>>, removed: Seq<DiffOpRemove>,
    units: Seq<DiffOpMove>, added: Seq<DiffOpAdd>, clear: bool, new: Seq<Option<C>>)
    -> Seq<Option<C>>
{
    let base: Seq<Option<C>> = if clear { Seq::empty() } else { ch };
    let st1 = removed_state(base, removed, removed.len() as int);
    let vals = detached_vals(st1, units, units.len() as int);
    let st2 = detached_state(st1, units, units.len() as int);
    let st3 = padded_state(st2, added.len() as int);
    let st4 = storage_state(st3, units, vals, units.len() as int);
    let st5 = dom_state(st4, units, vals, units.len() as int);
    compacted(added_state(st5, added, new, added.len() as int))
}

/// The instruction stream a reconciliation pass produces, in execution
/// order: clear unmounts, removal unmounts, storage-only reindexes,
/// real-tree moves, additions.
pub open spec fn reconciled_ops<C>(ch: Seq<Option<C>>, removed: Seq<DiffOpRemove>,
    units: Seq<DiffOpMove>, added: Seq<DiffOpAdd>, clear: bool, mounted: bool,
    new: Seq<Option<C>>) -> Seq<TreeOp<C>>
{
    let base: Seq<Option<C>> = if clear { Seq::empty() } else { ch };
    let st1 = removed_state(base, removed, removed.len() as int);
    let vals = detached_vals(st1, units, units.len() as int);
    let st2 = detached_state(st1, units, units.len() as int);
    let st3 = padded_state(st2, added.len() as int);
    let st4 = storage_state(st3, units, vals, units.len() as int);
    let st5 = dom_state(st4, units, vals, units.len() as int);
    let pre: Seq<TreeOp<C>> = if clear { clear_ops(ch, ch.len() as int) } else { Seq::empty() };
    pre + removed_ops(base, removed, removed.len() as int)
        + storage_ops(units, vals, units.len() as int)
        + dom_ops(st4, units, vals, mounted, units.len() as int)
        + added_ops(st5, added, new, mounted, added.len() as int)
}

/// A fold of hole-punching updates leaves every other slot alone.
pub proof fn lemma_removed_state_untouched<C>(base: Seq<Option<C>>, removed: Seq<DiffOpRemove>,
    j: int, idx: int)
    requires
        0 <= j <= removed.len(),
        0 <= idx < base.len(),
        forall|k: int| 0 <= k < j ==> (#[trigger] removed[k]).at != idx,
        forall|k: int| 0 <= k < removed.len() ==> (#[trigger] removed[k]).at < base.len(),
    ensures
        removed_state(base, removed, j).len() == base.len(),
        removed_state(base, removed, j)[idx] == base[idx],
    decreases j,
{
    if j > 0 {
        lemma_removed_state_untouched(base, removed, j - 1, idx);
    }
}

/// The removal fold keeps the array's length.
pub proof fn lemma_removed_state_len<C>(base: Seq<Option<C>>, removed: Seq<DiffOpRemove>, j: int)
    requires
        0 <= j <= removed.len(),
        forall|k: int| 0 <= k < removed.len() ==> (#[trigger] removed[k]).at < base.len(),
    ensures
        removed_state(base, removed, j).len() == base.len(),
    decreases j,
{
    if j > 0 {
        lemma_removed_state_len(base, removed, j - 1);
    }
}

/// As `lemma_removed_state_untouched`, for the detach fold.
pub proof fn lemma_detached_state_untouched<C>(st: Seq<Option<C>>, units: Seq<DiffOpMove>,
    j: int, idx: int)
    requires
        0 <= j <= units.len(),
        0 <= idx < st.len(),
        forall|k: int| 0 <= k < j ==> (#[trigger] units[k]).from != idx,
        forall|k: int| 0 <= k < units.len() ==> (#[trigger] units[k]).from < st.len(),
    ensures
        detached_state(st, units, j).len() == st.len(),
        detached_state(st, units, j)[idx] == st[idx],
    decreases j,
{
    if j > 0 {
        lemma_detached_state_untouched(st, units, j - 1, idx);
    }
}

/// The detach fold keeps the array's length.
pub proof fn lemma_detached_state_len<C>(st: Seq<Option<C>>, units: Seq<DiffOpMove>, j: int)
    requires
        0 <= j <= units.len(),
        forall|k: int| 0 <= k < units.len() ==> (#[trigger] units[k]).from < st.len(),
    ensures
        detached_state(st, units, j).len() == st.len(),
    decreases j,
{
    if j > 0 {
        lemma_detached_state_len(st, units, j - 1);
    }
}

/// The storage and real-tree placement folds keep the array's length.
pub proof fn lemma_move_states_len<C>(st: Seq<Option<C>>, units: Seq<DiffOpMove>,
    vals: Seq<Option<C>>, j: int)
    requires
        0 <= j <= units.len(),
        forall|k: int| 0 <= k < units.len() ==> (#[trigger] units[k]).to < st.len(),
    ensures
        storage_state(st, units, vals, j).len() == st.len(),
        dom_state(st, units, vals, j).len() == st.len(),
    decreases j,
{
    if j > 0 {
        lemma_move_states_len(st, units, vals, j - 1);
    }
}

/// The addition fold keeps the array's length.
pub proof fn lemma_added_state_len<C>(st: Seq<Option<C>>, added: Seq<DiffOpAdd>,
    new: Seq<Option<C>>, j: int)
    requires
        0 <= j <= added.len(),
        forall|k: int| 0 <= k < added.len() ==> (#[trigger] added[k]).at < st.len(),
    ensures
        added_state(st, added, new, j).len() == st.len(),
    decreases j,
{
    if j > 0 {
        lemma_added_state_len(st, added, new, j - 1);
    }
}

/// Whether one of the first `j` unit moves is storage-only and writes
/// slot `idx`.
pub open spec fn storage_writes(units: Seq<DiffOpMove>, j: int, idx: int) -> bool {
    exists|k: int| 0 <= k < j && !(#[trigger] units[k]).move_in_dom && units[k].to == idx
}

/// Whether one of the first `j` unit moves is a real-tree move and writes
/// slot `idx`.
pub open spec fn dom_writes(units: Seq<DiffOpMove>, j: int, idx: int) -> bool {
    exists|k: int| 0 <= k < j && (#[trigger] units[k]).move_in_dom && units[k].to == idx
}

/// Whether one of the first `j` additions writes slot `idx`.
pub open spec fn added_writes(added: Seq<DiffOpAdd>, j: int, idx: int) -> bool {
    exists|k: int| 0 <= k < j && (#[trigger] added[k]).at == idx
}

/// With pairwise distinct destinations, the storage fold puts each
/// storage-only child exactly at its destination and leaves every other
/// slot alone.
pub proof fn lemma_storage_state_pointwise<C>(st: Seq<Option<C>>, units: Seq<DiffOpMove>,
    vals: Seq<Option<C>>, j: int)
    requires
        0 <= j <= units.len(),
        forall|k: int| 0 <= k < units.len() ==> (#[trigger] units[k]).to < st.len(),
        forall|k: int, l: int| 0 <= k < l < units.len()
            ==> (#[trigger] units[k]).to != (#[trigger] units[l]).to,
    ensures
        storage_state(st, units, vals, j).len() == st.len(),
        forall|k: int| 0 <= k < j && !(#[trigger] units[k]).move_in_dom
            ==> storage_state(st, units, vals, j)[units[k].to as int] == vals[k],
        forall|idx: int| 0 <= idx < st.len() && !storage_writes(units, j, idx)
            ==> storage_state(st, units, vals, j)[idx] == st[idx],
    decreases j,
{
    if j > 0 {
        lemma_storage_state_pointwise(st, units, vals, j - 1);
        assert forall|idx: int| 0 <= idx < st.len() && !storage_writes(units, j, idx)
            implies !storage_writes(units, j - 1, idx) by {}
    }
}

/// As `lemma_storage_state_pointwise`, for the real-tree placement fold.
pub proof fn lemma_dom_state_pointwise<C>(st: Seq<Option<C>>, units: Seq<DiffOpMove>,
    vals: Seq<Option<C>>, j: int)
    requires
        0 <= j <= units.len(),
        forall|k: int| 0 <= k < units.len() ==> (#[trigger] units[k]).to < st.len(),
        forall|k: int, l: int| 0 <= k < l < units.len()
            ==> (#[trigger] units[k]).to != (#[trigger] units[l]).to,
    ensures
        dom_state(st, units, vals, j).len() == st.len(),
        forall|k: int| 0 <= k < j && (#[trigger] units[k]).move_in_dom
            ==> dom_state(st, units, vals, j)[units[k].to as int] == vals[k],
        forall|idx: int| 0 <= idx < st.len() && !dom_writes(units, j, idx)
            ==> dom_state(st, units, vals, j)[idx] == st[idx],
    decreases j,
{
    if j > 0 {
        lemma_dom_state_pointwise(st, units, vals, j - 1);
        assert forall|idx: int| 0 <= idx < st.len() && !dom_writes(units, j, idx)
            implies !dom_writes(units, j - 1, idx) by {}
    }
}

/// With pairwise distinct positions, the addition fold puts each new child
/// exactly at its position and leaves every other slot alone.
pub proof fn lemma_added_state_pointwise<C>(st: Seq<Option<C>>, added: Seq<DiffOpAdd>,
    new: Seq<Option<C>>, j: int)
    requires
        0 <= j <= added.len(),
        forall|k: int| 0 <= k < added.len() ==> (#[trigger] added[k]).at < st.len(),
        forall|k: int, l: int| 0 <= k < l < added.len()
            ==> (#[trigger] added[k]).at != (#[trigger] added[l]).at,
    ensures
        added_state(st, added, new, j).len() == st.len(),
        forall|k: int| 0 <= k < j
            ==> added_state(st, added, new, j)[(#[trigger] added[k]).at as int]
                == new[added[k].at as int],
        forall|idx: int| 0 <= idx < st.len() && !added_writes(added, j, idx)
            ==> added_state(st, added, new, j)[idx] == st[idx],
    decreases j,
{
    if j > 0 {
        lemma_added_state_pointwise(st, added, new, j - 1);
        assert forall|idx: int| 0 <= idx < st.len() && !added_writes(added, j, idx)
            implies !added_writes(added, j - 1, idx) by {}
    }
}

/// With pairwise distinct positions, the removal fold leaves a hole at
/// every removed position.
pub proof fn lemma_removed_state_holes<C>(base: Seq<Option<C>>, removed: Seq<DiffOpRemove>,
    j: int)
    requires
        0 <= j <= removed.len(),
        forall|k: int| 0 <= k < removed.len() ==> (#[trigger] removed[k]).at < base.len(),
        forall|k: int, l: int| 0 <= k < l < removed.len()
            ==> (#[trigger] removed[k]).at != (#[trigger] removed[l]).at,
    ensures
        removed_state(base, removed, j).len() == base.len(),
        forall|k: int| 0 <= k < j
            ==> removed_state(base, removed, j)[(#[trigger] removed[k]).at as int] is None,
    decreases j,
{
    if j > 0 {
        lemma_removed_state_holes(base, removed, j - 1);
    }
}

/// With pairwise distinct sources, the detach fold leaves a hole at every
/// source position.
pub proof fn lemma_detached_state_holes<C>(st: Seq<Option<C>>, units: Seq<DiffOpMove>, j: int)
    requires
        0 <= j <= units.len(),
        forall|k: int| 0 <= k < units.len() ==> (#[trigger] units[k]).from < st.len(),
        forall|k: int, l: int| 0 <= k < l < units.len()
            ==> (#[trigger] units[k]).from != (#[trigger] units[l]).from,
    ensures
        detached_state(st, units, j).len() == st.len(),
        forall|k: int| 0 <= k < j
            ==> detached_state(st, units, j)[(#[trigger] units[k]).from as int] is None,
    decreases j,
{
    if j > 0 {
        lemma_detached_state_holes(st, units, j - 1);
    }
}

/// Filtering the filled slots of an array whose filled slots are exactly a
/// prefix yields that prefix.
pub proof fn lemma_filter_some_prefix<C>(s: Seq<Option<C>>, m: int)
    requires
        0 <= m <= s.len(),
        forall|p: int| 0 <= p < m ==> (#[trigger] s[p]) is Some,
        forall|p: int| m <= p < s.len() ==> !((#[trigger] s[p]) is Some),
    ensures
        compacted(s) == s.take(m),
    decreases s.len(),
{
    if s.len() == 0 {
        assert(s.take(m) =~= s);
        assert(compacted(s) =~= s);
    } else if m == s.len() {
        assert(s.last() is Some);
        assert forall|p: int| 0 <= p < m - 1 implies (#[trigger] s.drop_last()[p]) is Some by {
            assert(s[p] is Some);
        }
        lemma_filter_some_prefix(s.drop_last(), m - 1);
        assert(compacted(s) == compacted(s.drop_last()).push(s.last()));
        assert(s.take(m) =~= s.drop_last().take(m - 1).push(s.last()));
    } else {
        assert(!(s.last() is Some));
        assert forall|p: int| 0 <= p < m implies (#[trigger] s.drop_last()[p]) is Some by {
            assert(s[p] is Some);
        }
        assert forall|p: int| m <= p < s.drop_last().len()
            implies !((#[trigger] s.drop_last()[p]) is Some) by {
            assert(!(s[p] is Some));
        }
        lemma_filter_some_prefix(s.drop_last(), m);
        assert(compacted(s) == compacted(s.drop_last()));
        assert(s.drop_last().take(m) =~= s.take(m));
    }
}

/// Scans forward from a position through the slot array, returning the
/// position of the first filled slot, if any: the insertion anchor when
/// the immediately following slot is transiently a hole.
pub fn get_next_closest_mounted_sibling<C>(children: &Vec<Option<C>>, start_at: usize)
    -> (r: Option<usize>)
    requires
        start_at <= children@.len(),
    ensures
        match r {
            Some(s) => {
                &&& first_some_from(children@, start_at as int) == Some(s as int)
                &&& start_at <= s < children@.len()
                &&& children@[s as int] is Some
            },
            None => first_some_from(children@, start_at as int) is None,
        },
{
    let n = children.len();
    let mut i = start_at;
    while i < n
        invariant
            start_at <= i <= n,
            n == children@.len(),
            first_some_from(children@, start_at as int) == first_some_from(children@, i as int),
        decreases n - i,
    {
        if children[i].is_some() {
            return Some(i);
        }
        i = i + 1;
    }
    None
}

/// Relies on drain_filter_polyfill's `VecExt::drain_filter`: dropping the
/// returned iterator removes every element the predicate accepts and keeps
/// the rest in order.  Here it removes the holes left by a reconciliation
/// pass.
#[verifier::external_body]
pub fn compact_slots<C>(children: &mut Vec<Option<C>>)
    ensures
        final(children)@ == compacted(old(children)@),
{
    #[allow(unstable_name_collisions)]
    let _ = drain_filter_polyfill::VecExt::drain_filter(children, |c| c.is_none());
}

/// Applies a diff to the retained child slots in the fixed safe order —
/// clear, removals, detach, grow, storage-only moves, real-tree moves,
/// additions, compaction — and returns the live-tree instructions of the
/// pass.  When the list is not mounted only unmount and reindex
/// instructions arise, never insertions.
///
/// `new_children` holds the built child of every added position; the slots
/// of a cleared or removed child leave the array, a moved child keeps its
/// handle at its destination, and no hole survives compaction.
pub fn apply_diff<C: Copy>(mounted: bool, diff: &Diff, children: &mut Vec<Option<C>>,
    new_children: &Vec<Option<C>>) -> (ops: Vec<TreeOp<C>>)
    requires
        diff.clear ==> diff.removed@.len() == 0 && diff.moved@.len() == 0
            && diff.items_to_move == 0,
        total_move_len(diff.moved@) == diff.items_to_move,
        forall|j: int| 0 <= j < diff.moved@.len() ==> {
            &&& (#[trigger] diff.moved@[j]).len >= 1
            &&& diff.moved@[j].from + diff.moved@[j].len <= usize::MAX
            &&& diff.moved@[j].to + diff.moved@[j].len <= usize::MAX
        },
        diff.items_to_move + diff.added@.len() + diff.removed@.len() <= usize::MAX,
        ({
            let base: Seq<Option<C>> = if diff.clear { Seq::empty() } else { old(children)@ };
            let units = expand_moves(diff.moved@);
            &&& base.len() + diff.added@.len() <= usize::MAX
            &&& forall|j: int| 0 <= j < diff.removed@.len() ==> {
                &&& (#[trigger] diff.removed@[j]).at < base.len()
                &&& base[diff.removed@[j].at as int] is Some
            }
            &&& forall|j: int, k: int| 0 <= j < k < diff.removed@.len()
                ==> (#[trigger] diff.removed@[j]).at != (#[trigger] diff.removed@[k]).at
            &&& forall|j: int| 0 <= j < units.len() ==> {
                &&& (#[trigger] units[j]).from < base.len()
                &&& base[units[j].from as int] is Some
                &&& units[j].to < base.len() + diff.added@.len()
            }
            &&& forall|j: int, k: int| 0 <= j < k < units.len()
                ==> (#[trigger] units[j]).from != (#[trigger] units[k]).from
            &&& forall|j: int, k: int| 0 <= j < units.len() && 0 <= k < diff.removed@.len()
                ==> (#[trigger] units[j]).from != (#[trigger] diff.removed@[k]).at
            &&& forall|j: int| 0 <= j < diff.added@.len() ==> {
                &&& (#[trigger] diff.added@[j]).at < base.len() + diff.added@.len()
                &&& diff.added@[j].at < new_children@.len()
                &&& new_children@[diff.added@[j].at as int] is Some
            }
        }),
    ensures
        final(children)@ == reconciled_slots(old(children)@, diff.removed@,
            expand_moves(diff.moved@), diff.added@, diff.clear, new_children@),
        ops@ == reconciled_ops(old(children)@, diff.removed@, expand_moves(diff.moved@),
            diff.added@, diff.clear, mounted, new_children@),
{
    let ghost ch0 = children@;
    let ghost units = expand_moves(diff.moved@);
    let ghost base: Seq<Option<C>> = if diff.clear { Seq::empty() } else { children@ };

    let mut ops: Vec<TreeOp<C>> = Vec::new();

    // 1. Clear: unmount and drop every retained child; an empty new order
    // is final.
    if diff.clear {
        let n = children.len();
        for i in 0..n
            invariant
                n == children@.len(),
                children@ == ch0,
                ops@ == clear_ops(ch0, i as int),
        {
            if let Some(c) = children[i] {
                ops.push(TreeOp::Unmount { child: c });
            }
        }
        children.clear();
        if diff.added.len() == 0 {
            proof {
                assert(reconciled_slots(ch0, diff.removed@, units, diff.added@, diff.clear,
                    new_children@) =~= Seq::<Option<C>>::empty());
                assert(reconciled_ops(ch0, diff.removed@, units, diff.added@, diff.clear,
                    mounted, new_children@) =~= clear_ops(ch0, ch0.len() as int));
            }
            return ops;
        }
    }
    let ghost ops_pre: Seq<TreeOp<C>> = ops@;
    proof {
        assert(children@ =~= base);
    }

    // 2. Removals: unmount each removed child, leaving a hole.
    let n_removed = diff.removed.len();
    for j in 0..n_removed
        invariant
            n_removed == diff.removed@.len(),
            children@ == removed_state(base, diff.removed@, j as int),
            ops@ == ops_pre + removed_ops(base, diff.removed@, j as int),
            base.len() <= usize::MAX,
            forall|k: int| 0 <= k < diff.removed@.len() ==> {
                &&& (#[trigger] diff.removed@[k]).at < base.len()
                &&& base[diff.removed@[k].at as int] is Some
            },
            forall|k: int, l: int| 0 <= k < l < diff.removed@.len()
                ==> (#[trigger] diff.removed@[k]).at != (#[trigger] diff.removed@[l]).at,
    {
        let at = diff.removed[j].at;
        proof {
            lemma_removed_state_len(base, diff.removed@, j as int);
            assert forall|k: int| 0 <= k < j implies (#[trigger] diff.removed@[k]).at
                != at as int by {}
            lemma_removed_state_untouched(base, diff.removed@, j as int, at as int);
        }
        let mut slot: Option<C> = None;
        children.set_and_swap(at, &mut slot);
        let child = slot.unwrap();
        ops.push(TreeOp::Unmount { child });
    }
    let ghost st1 = removed_state(base, diff.removed@, diff.removed@.len() as int);
    let ghost ops1: Seq<TreeOp<C>> = ops@;
    proof {
        lemma_removed_state_len(base, diff.removed@, diff.removed@.len() as int);
    }

    // 3. Unpack the grouped moves into an ascending execution order.
    let (move_cmds, add_cmds) = unpack_moves(diff);

    // 4. Detach: take every moved child out of its source slot before any
    // resizing, so that no placement can invalidate a source position.
    let ghost vals = detached_vals(st1, units, units.len() as int);
    let n_units = move_cmds.len();
    let mut moved_children: Vec<Option<C>> = Vec::new();
    for j in 0..n_units
        invariant
            n_units == units.len(),
            move_cmds@ == units,
            children@ == detached_state(st1, units, j as int),
            moved_children@ == vals.take(j as int),
            st1.len() == base.len(),
            st1 == removed_state(base, diff.removed@, diff.removed@.len() as int),
            vals == detached_vals(st1, units, units.len() as int),
            forall|k: int| 0 <= k < units.len() ==> (#[trigger] units[k]).from < st1.len(),
            forall|k: int, l: int| 0 <= k < l < units.len()
                ==> (#[trigger] units[k]).from != (#[trigger] units[l]).from,
    {
        let from = move_cmds[j].from;
        proof {
            lemma_detached_state_len(st1, units, j as int);
            lemma_detached_state_untouched(st1, units, j as int, from as int);
            assert(vals.take(j + 1) =~= vals.take(j as int).push(st1[from as int]));
        }
        let mut slot: Option<C> = None;
        children.set_and_swap(from, &mut slot);
        moved_children.push(slot);
    }
    let ghost st2 = detached_state(st1, units, units.len() as int);
    proof {
        assert(moved_children@ =~= vals);
        lemma_detached_state_len(st1, units, units.len() as int);
        assert forall|k: int| 0 <= k < units.len() implies (#[trigger] vals[k]) is Some by {
            assert(units[k].from < base.len());
            assert(base[units[k].from as int] is Some);
            assert forall|l: int| 0 <= l < diff.removed@.len()
                implies (#[trigger] diff.removed@[l]).at != units[k].from as int by {}
            lemma_removed_state_untouched(base, diff.removed@, diff.removed@.len() as int,
                units[k].from as int);
        }
    }

    // 5. Grow the slot array: one hole per addition at the tail.
    proof {
        assert(children@ =~= st2 + Seq::new(0nat, |x: int| None::<C>));
    }
    let n_added = diff.added.len();
    for k in 0..n_added
        invariant
            n_added == diff.added@.len(),
            children@ == st2 + Seq::new(k as nat, |x: int| None::<C>),
            st2.len() == base.len(),
            base.len() + n_added <= usize::MAX,
    {
        proof {
            assert((st2 + Seq::new(k as nat, |x: int| None::<C>)).push(None)
                =~= st2 + Seq::new((k + 1) as nat, |x: int| None::<C>));
        }
        children.push(None);
    }
    let ghost st3 = padded_state(st2, diff.added@.len() as int);
    proof {
        assert(children@ =~= st3);
    }

    // 6. Storage-only moves: place the detached child and tell it its new
    // position; the live tree is untouched.
    for j in 0..n_units
        invariant
            n_units == units.len(),
            move_cmds@ == units,
            moved_children@ == vals,
            children@ == storage_state(st3, units, vals, j as int),
            ops@ == ops1 + storage_ops(units, vals, j as int),
            st3.len() == base.len() + diff.added@.len(),
            vals.len() == units.len(),
            forall|k: int| 0 <= k < units.len() ==> (#[trigger] units[k]).to < st3.len(),
            forall|k: int| 0 <= k < units.len() ==> (#[trigger] vals[k]) is Some,
    {
        let mv = move_cmds[j];
        proof {
            lemma_move_states_len(st3, units, vals, j as int);
        }
        if !mv.move_in_dom {
            let child = moved_children[j].unwrap();
            children.set(mv.to, Some(child));
            ops.push(TreeOp::SetIndex { child, index: mv.to });
        }
    }
    let ghost st4 = storage_state(st3, units, vals, units.len() as int);
    let ghost ops2: Seq<TreeOp<C>> = ops@;
    proof {
        lemma_move_states_len(st3, units, vals, units.len() as int);
    }

    // 7. Real-tree moves: re-insert the detached child before the nearest
    // following mounted sibling, or the end marker when none follows.
    for j in 0..n_units
        invariant
            n_units == units.len(),
            move_cmds@ == units,
            moved_children@ == vals,
            children@ == dom_state(st4, units, vals, j as int),
            ops@ == ops2 + dom_ops(st4, units, vals, mounted, j as int),
            st4.len() == base.len() + diff.added@.len(),
            vals.len() == units.len(),
            forall|k: int| 0 <= k < units.len() ==> (#[trigger] units[k]).to < st4.len(),
            forall|k: int| 0 <= k < units.len() ==> (#[trigger] vals[k]) is Some,
    {
        let mv = move_cmds[j];
        proof {
            lemma_move_states_len(st4, units, vals, j as int);
        }
        if mv.move_in_dom {
            let child = moved_children[j].unwrap();
            if mounted {
                match get_next_closest_mounted_sibling(children, mv.to) {
                    Some(s) => {
                        let sibling = children[s].unwrap();
                        ops.push(TreeOp::InsertBefore { child, sibling });
                    }
                    None => {
                        ops.push(TreeOp::InsertBeforeMarker { child });
                    }
                }
            }
            ops.push(TreeOp::SetIndex { child, index: mv.to });
            children.set(mv.to, Some(child));
        }
    }
    let ghost st5 = dom_state(st4, units, vals, units.len() as int);
    let ghost ops3: Seq<TreeOp<C>> = ops@;
    proof {
        lemma_move_states_len(st4, units, vals, units.len() as int);
    }

    // 8. Additions: mount the pre-built child of each added position.
    let n_adds = add_cmds.len();
    for k in 0..n_adds
        invariant
            n_adds == diff.added@.len(),
            add_cmds@ == diff.added@,
            children@ == added_state(st5, diff.added@, new_children@, k as int),
            ops@ == ops3 + added_ops(st5, diff.added@, new_children@, mounted, k as int),
            st5.len() == base.len() + diff.added@.len(),
            forall|l: int| 0 <= l < diff.added@.len() ==> {
                &&& (#[trigger] diff.added@[l]).at < st5.len()
                &&& diff.added@[l].at < new_children@.len()
                &&& new_children@[diff.added@[l].at as int] is Some
            },
    {
        let ad = add_cmds[k];
        proof {
            lemma_added_state_len(st5, diff.added@, new_children@, k as int);
        }
        let child = new_children[ad.at].unwrap();
        if mounted {
            match ad.mode {
                DiffOpAddMode::Normal => {
                    match get_next_closest_mounted_sibling(children, ad.at) {
                        Some(s) => {
                            let sibling = children[s].unwrap();
                            ops.push(TreeOp::InsertBefore { child, sibling });
                        }
                        None => {
                            ops.push(TreeOp::InsertBeforeMarker { child });
                        }
                    }
                }
                DiffOpAddMode::Append => {
                    ops.push(TreeOp::InsertBeforeMarker { child });
                }
            }
        }
        children.set(ad.at, Some(child));
    }

    // 9. Compact: remove the slots still empty, keeping the rest in order.
    compact_slots(children);

    proof {
        assert(ops@ =~= reconciled_ops(ch0, diff.removed@, units, diff.added@, diff.clear,
            mounted, new_children@));
        assert(children@ =~= reconciled_slots(ch0, diff.removed@, units, diff.added@,
            diff.clear, new_children@));
    }
    ops
}

} // verus!
