//! The keyed list itself: a collection of items with caller-supplied key
//! and view derivation, and the retained state a built list keeps between
//! updates — the ordered key index and the child-slot array — with the
//! reconciliation pass that brings them to a new collection.
//!
//! Duplicate keys within one update collapse to a single logical slot:
//! the first occurrence of a key is the defining one, and later
//! occurrences of the same key in the same update are ignored.

use vstd::prelude::*;
use vstd::pervasive::VecAdditionalExecFns;
use crate::apply::{apply_diff, clear_ops, TreeOp};
use crate::diffing::{diff, group_moves, is_add_at, is_move_at, is_remove_at,
    lemma_adds_facts, lemma_adds_stable, lemma_group_bounds, lemma_group_total,
    lemma_moves_facts, lemma_moves_removes_count, lemma_removes_facts, lemma_scan_counts,
    lemma_target_len_bound, lemma_unit_moves_bounds, lemma_unit_moves_count, move_op_at,
    scan_len, spec_added, spec_clear, spec_moved, spec_removed, spec_unit_moves};
use crate::index_set::{dedup_first, key_seq, key_set_get_index, key_set_insert, key_set_len,
    lemma_dedup_first_no_duplicates, new_key_set, FxIndexSet};
use crate::ops::DiffOpMove;
use crate::stable_id::dec_digits;
use crate::unpack::{expand_moves, lemma_expand_group};

verus! {

/// A key that can serialize itself to a stable string, for consumers that
/// need per-item identity in emitted markup.  Serializing the same key
/// twice yields the same string.
pub trait SerializableKey {
    /// Serializes the key to a unique string.
    fn ser_key(&self) -> String;
}

/// Relies on `serde_json::to_string`: an unsigned integer serializes to
/// its plain decimal digits, and serializing an integer cannot fail.
#[verifier::external_body]
fn json_u64(k: &u64) -> (r: String)
    ensures
        r@ == dec_digits(*k as nat),
{
    serde_json::to_string(k).unwrap_or_default()
}

impl SerializableKey for u64 {
    fn ser_key(&self) -> String {
        json_u64(self)
    }
}

/// A keyed list of views: the items of one update, a key derivation and a
/// view derivation.  Two items are the same item exactly when their keys
/// are equal.
#[verifier::reject_recursive_types(C)]
pub struct Keyed<T, KF, VF, C> where KF: Fn(&T) -> u64, VF: Fn(usize, &T) -> C {
    pub items: Vec<T>,
    pub key_fn: KF,
    pub view_fn: VF,
}

/// Creates a keyed list of views.
pub fn keyed<T, KF, VF, C>(items: Vec<T>, key_fn: KF, view_fn: VF) -> (r: Keyed<T, KF, VF, C>)
    where KF: Fn(&T) -> u64, VF: Fn(usize, &T) -> C,
    ensures
        r.items == items,
        r.key_fn == key_fn,
        r.view_fn == view_fn,
{
    Keyed { items, key_fn, view_fn }
}

/// Retained view state for a keyed list: whether the list is mounted in a
/// live tree, the ordered key index of the current order, and the
/// child-slot array parallel to it.
pub struct KeyedState<C> {
    pub mounted: bool,
    pub hashed_items: FxIndexSet,
    pub rendered_items: Vec<Option<C>>,
}

/// The children the filled slots of an array hold, in order.
pub open spec fn present_children<C>(s: Seq<Option<C>>) -> Seq<C>
    decreases s.len(),
{
    if s.len() == 0 {
        Seq::empty()
    } else if s.last() is Some {
        present_children(s.drop_last()).push(s.last()->0)
    } else {
        present_children(s.drop_last())
    }
}

impl<C> KeyedState<C> {
    /// The current key order.
    pub open spec fn key_order(self) -> Seq<u64> {
        key_seq(self.hashed_items)
    }

    /// Between reconciliation passes the state is whole: the key order
    /// has no duplicate, and the slot array holds exactly one filled slot
    /// per key.
    pub open spec fn wf(self) -> bool {
        &&& self.key_order().no_duplicates()
        &&& self.rendered_items@.len() == self.key_order().len()
        &&& forall|i: int| 0 <= i < self.rendered_items@.len()
            ==> (#[trigger] self.rendered_items@[i]) is Some
    }
}

impl<C: Copy> KeyedState<C> {
    /// The keys of the current order, first to last.
    pub fn keys(&self) -> (r: Vec<u64>)
        ensures
            r@ == self.key_order(),
    {
        let n = key_set_len(&self.hashed_items);
        let mut r: Vec<u64> = Vec::new();
        for i in 0..n
            invariant
                n == self.key_order().len(),
                r@ == self.key_order().take(i as int),
        {
            let k = key_set_get_index(&self.hashed_items, i).unwrap();
            proof {
                assert(self.key_order().take(i + 1).drop_last()
                    =~= self.key_order().take(i as int));
            }
            r.push(k);
        }
        proof {
            assert(self.key_order().take(n as int) =~= self.key_order());
        }
        r
    }

    /// The children of the filled slots, first to last: all of them, in
    /// order, between passes.
    pub fn elements(&self) -> (r: Vec<C>)
        ensures
            r@ == present_children(self.rendered_items@),
    {
        let n = self.rendered_items.len();
        let mut r: Vec<C> = Vec::new();
        for i in 0..n
            invariant
                n == self.rendered_items@.len(),
                r@ == present_children(self.rendered_items@.take(i as int)),
        {
            proof {
                assert(self.rendered_items@.take(i + 1).drop_last()
                    =~= self.rendered_items@.take(i as int));
                assert(self.rendered_items@.take(i + 1).last()
                    == self.rendered_items@[i as int]);
            }
            if let Some(c) = self.rendered_items[i] {
                r.push(c);
            }
        }
        proof {
            assert(self.rendered_items@.take(n as int) =~= self.rendered_items@);
        }
        r
    }

    /// Unmounts every retained child, leaving the retained state as it
    /// is: the instructions to take the whole list out of the live tree.
    pub fn unmount(&self) -> (ops: Vec<TreeOp<C>>)
        ensures
            ops@ == clear_ops(self.rendered_items@, self.rendered_items@.len() as int),
    {
        let n = self.rendered_items.len();
        let mut ops: Vec<TreeOp<C>> = Vec::new();
        for i in 0..n
            invariant
                n == self.rendered_items@.len(),
                ops@ == clear_ops(self.rendered_items@, i as int),
        {
            if let Some(c) = self.rendered_items[i] {
                ops.push(TreeOp::Unmount { child: c });
            }
        }
        ops
    }
}

impl<T, KF, VF, C: Copy> Keyed<T, KF, VF, C> where KF: Fn(&T) -> u64, VF: Fn(usize, &T) -> C {
    /// Builds the retained state of a first render: one key and one built
    /// child per item, in order, duplicate keys collapsed to their first
    /// occurrence.  The view derivation is called with the item's slot
    /// position.
    pub fn build(self) -> (r: KeyedState<C>)
        requires
            forall|x: &T| #[trigger] call_requires(self.key_fn, (x,)),
            forall|i: usize, x: &T| #[trigger] call_requires(self.view_fn, (i, x)),
        ensures
            r.wf(),
            !r.mounted,
            exists|ks: Seq<u64>| {
                &&& ks.len() == self.items@.len()
                &&& forall|i: int| 0 <= i < ks.len()
                    ==> call_ensures(self.key_fn, (&self.items[i],), #[trigger] ks[i])
                &&& r.key_order() == dedup_first(ks)
            },
            forall|p: int| 0 <= p < r.rendered_items@.len()
                ==> exists|idx: int| 0 <= idx < self.items@.len()
                    && call_ensures(self.view_fn, (p as usize, &self.items[idx]),
                        (#[trigger] r.rendered_items@[p])->0),
    {
        let Keyed { items, key_fn, view_fn } = self;
        let mut hashed_items = new_key_set();
        let mut rendered_items: Vec<Option<C>> = Vec::new();
        let ghost mut ks: Seq<u64> = Seq::empty();
        let n = items.len();
        for i in 0..n
            invariant
                n == items@.len(),
                ks.len() == i,
                forall|j: int| 0 <= j < i
                    ==> call_ensures(key_fn, (&items[j],), #[trigger] ks[j]),
                key_seq(hashed_items) == dedup_first(ks),
                rendered_items@.len() == key_seq(hashed_items).len(),
                forall|j: int| 0 <= j < rendered_items@.len()
                    ==> (#[trigger] rendered_items@[j]) is Some,
                forall|p: int| 0 <= p < rendered_items@.len()
                    ==> exists|idx: int| 0 <= idx < items@.len()
                        && call_ensures(view_fn, (p as usize, &items[idx]),
                            (#[trigger] rendered_items@[p])->0),
                forall|x: &T| #[trigger] call_requires(key_fn, (x,)),
                forall|ix: usize, x: &T| #[trigger] call_requires(view_fn, (ix, x)),
        {
            let k = key_fn(&items[i]);
            proof {
                lemma_dedup_first_no_duplicates(ks);
                assert(ks.push(k).drop_last() =~= ks);
            }
            let inserted = key_set_insert(&mut hashed_items, k);
            if inserted {
                let c = view_fn(rendered_items.len(), &items[i]);
                let ghost pre = rendered_items@;
                rendered_items.push(Some(c));
                proof {
                    assert forall|p: int| 0 <= p < rendered_items@.len()
                        implies exists|idx: int| 0 <= idx < items@.len()
                            && call_ensures(view_fn, (p as usize, &items[idx]),
                                (#[trigger] rendered_items@[p])->0) by {
                        if p < pre.len() {
                            assert(rendered_items@[p] == pre[p]);
                        } else {
                            assert(rendered_items@[p]->0 == c);
                            assert(call_ensures(view_fn, (p as usize, &items[i as int]),
                                rendered_items@[p]->0));
                        }
                    }
                }
            }
            proof {
                ks = ks.push(k);
                assert(key_seq(hashed_items) =~= dedup_first(ks));
            }
        }
        proof {
            lemma_dedup_first_no_duplicates(ks);
        }
        KeyedState { mounted: false, hashed_items, rendered_items }
    }

    /// One reconciliation pass: diffs the retained key order against this
    /// update's key order, builds a child for each added position — the
    /// first item of each fresh key defines it — applies the diff to the
    /// slot array, and replaces the key order wholesale.  The returned
    /// instructions bring the live tree along; each surviving key keeps
    /// the child it had, now at its new position.
    pub fn rebuild(self, state: &mut KeyedState<C>) -> (ops: Vec<TreeOp<C>>)
        requires
            old(state).wf(),
            old(state).rendered_items@.len() + self.items@.len() <= usize::MAX,
            forall|x: &T| #[trigger] call_requires(self.key_fn, (x,)),
            forall|i: usize, x: &T| #[trigger] call_requires(self.view_fn, (i, x)),
        ensures
            final(state).wf(),
            final(state).mounted == old(state).mounted,
            exists|ks: Seq<u64>| {
                &&& ks.len() == self.items@.len()
                &&& forall|i: int| 0 <= i < ks.len()
                    ==> call_ensures(self.key_fn, (&self.items[i],), #[trigger] ks[i])
                &&& final(state).key_order() == dedup_first(ks)
            },
            forall|p: int| 0 <= p < final(state).key_order().len()
                && old(state).key_order().contains(#[trigger] final(state).key_order()[p])
                ==> final(state).rendered_items@[p] == old(state).rendered_items@[
                    old(state).key_order().index_of(final(state).key_order()[p])],
            forall|p: int| 0 <= p < final(state).key_order().len()
                && !old(state).key_order().contains(#[trigger] final(state).key_order()[p])
                ==> exists|idx: int| 0 <= idx < self.items@.len()
                    && call_ensures(self.view_fn, (p as usize, &self.items[idx]),
                        final(state).rendered_items@[p]->0),
    {
        let Keyed { items, key_fn, view_fn } = self;
        let ghost f = key_seq(state.hashed_items);
        let ghost oldslots = state.rendered_items@;

        // Derive this update's key order, remembering which item defines
        // each deduplicated position.
        let mut new_set = new_key_set();
        let mut defining: Vec<usize> = Vec::new();
        let ghost mut ks: Seq<u64> = Seq::empty();
        let n = items.len();
        for i in 0..n
            invariant
                n == items@.len(),
                ks.len() == i,
                forall|j: int| 0 <= j < i
                    ==> call_ensures(key_fn, (&items[j],), #[trigger] ks[j]),
                key_seq(new_set) == dedup_first(ks),
                defining@.len() == key_seq(new_set).len(),
                forall|p: int| 0 <= p < defining@.len() ==> (#[trigger] defining@[p]) < n,
                forall|x: &T| #[trigger] call_requires(key_fn, (x,)),
                forall|ix: usize, x: &T| #[trigger] call_requires(view_fn, (ix, x)),
        {
            let k = key_fn(&items[i]);
            proof {
                lemma_dedup_first_no_duplicates(ks);
                assert(ks.push(k).drop_last() =~= ks);
            }
            let inserted = key_set_insert(&mut new_set, k);
            if inserted {
                defining.push(i);
            }
            proof {
                ks = ks.push(k);
                assert(key_seq(new_set) =~= dedup_first(ks));
            }
        }
        let ghost t = key_seq(new_set);
        proof {
            lemma_dedup_first_no_duplicates(ks);
            lemma_dedup_len(ks);
            assert(t.len() <= n);
        }

        let cmds = diff(&state.hashed_items, &new_set);

        // Build the added positions' children: the defining item of each
        // fresh key, at its new position.
        let t_len = key_set_len(&new_set);
        let mut new_children: Vec<Option<C>> = Vec::new();
        for _k in 0..t_len
            invariant
                new_children@.len() == _k,
        {
            new_children.push(None);
        }
        proof {
            lemma_diff_shapes(f, t);
        }
        let n_add = cmds.added.len();
        for j in 0..n_add
            invariant
                n_add == cmds.added@.len(),
                cmds.added@ == spec_added(f, t),
                t == key_seq(new_set),
                f.no_duplicates(),
                t.no_duplicates(),
                new_children@.len() == t.len(),
                t.len() == t_len,
                defining@.len() == t.len(),
                forall|p: int| 0 <= p < defining@.len() ==> (#[trigger] defining@[p]) < n,
                n == items@.len(),
                forall|l: int| 0 <= l < cmds.added@.len()
                    ==> (#[trigger] cmds.added@[l]).at < t.len(),
                forall|l: int| 0 <= l < j
                    ==> new_children@[(#[trigger] cmds.added@[l]).at as int] is Some,
                forall|l: int| 0 <= l < j
                    ==> exists|idx: int| 0 <= idx < items@.len()
                        && call_ensures(view_fn,
                            ((#[trigger] cmds.added@[l]).at, &items[idx]),
                            new_children@[cmds.added@[l].at as int]->0),
                forall|ix: usize, x: &T| #[trigger] call_requires(view_fn, (ix, x)),
        {
            let at = cmds.added[j].at;
            let idx = defining[at];
            let c = view_fn(at, &items[idx]);
            let ghost prev_nc = new_children@;
            new_children.set(at, Some(c));
            proof {
                assert forall|l: int| 0 <= l < j + 1
                    implies exists|ix2: int| 0 <= ix2 < items@.len()
                        && call_ensures(view_fn,
                            ((#[trigger] cmds.added@[l]).at, &items[ix2]),
                            new_children@[cmds.added@[l].at as int]->0) by {
                    if cmds.added@[l].at == at {
                        assert(new_children@[cmds.added@[l].at as int]->0 == c);
                        assert(call_ensures(view_fn, (at, &items[idx as int]),
                            new_children@[cmds.added@[l].at as int]->0));
                    } else {
                        assert(new_children@[cmds.added@[l].at as int]
                            == prev_nc[cmds.added@[l].at as int]);
                    }
                }
            }
        }

        // The diff's own contract supplies everything its application
        // demands of a well-formed state.
        proof {
            lemma_apply_preconditions(f, t, oldslots, new_children@);
            assert forall|l: int| 0 <= l < cmds.added@.len() implies {
                &&& (#[trigger] cmds.added@[l]).at
                    < (if cmds.clear { Seq::<Option<C>>::empty() } else { oldslots }).len()
                        + cmds.added@.len()
                &&& cmds.added@[l].at < new_children@.len()
                &&& new_children@[cmds.added@[l].at as int] is Some
            } by {
                assert(cmds.added@[l].at < t.len());
                assert(!cmds.clear);
            }
        }
        let ops = apply_diff(state.mounted, &cmds, &mut state.rendered_items, &new_children);
        state.hashed_items = new_set;

        proof {
            assert forall|p: int| 0 <= p < t.len() && is_add_at(f, t, p)
                implies (#[trigger] new_children@[p]) is Some by {
                let j = choose|j: int| 0 <= j < cmds.added@.len()
                    && (#[trigger] cmds.added@[j]).at == p;
                assert(new_children@[cmds.added@[j].at as int] is Some);
            }
            crate::laws::lemma_pass_reaches_target(f, t, oldslots, new_children@);
            assert forall|p: int| 0 <= p < t.len()
                implies (#[trigger] state.rendered_items@[p]) is Some by {}
            assert forall|p: int| 0 <= p < t.len() && !f.contains(#[trigger] t[p])
                implies exists|idx: int| 0 <= idx < items@.len()
                    && call_ensures(view_fn, (p as usize, &items[idx]),
                        state.rendered_items@[p]->0) by {
                assert(is_add_at(f, t, p));
                let l = choose|l: int| 0 <= l < cmds.added@.len()
                    && (#[trigger] cmds.added@[l]).at == p;
                assert(state.rendered_items@[p] == new_children@[p]);
                let idx = choose|ix2: int| 0 <= ix2 < items@.len()
                    && call_ensures(view_fn, ((cmds.added@[l]).at, &items[ix2]),
                        new_children@[cmds.added@[l].at as int]->0);
                assert(call_ensures(view_fn, (p as usize, &items[idx]),
                    state.rendered_items@[p]->0));
            }
        }
        ops
    }
}

/// The markup fragments of a list, in item order.
pub open spec fn concat_fragments(frags: Seq<Seq<char>>) -> Seq<char>
    decreases frags.len(),
{
    if frags.len() == 0 {
        Seq::empty()
    } else {
        concat_fragments(frags.drop_last()) + frags.last()
    }
}

/// The single trailing token that delimits a streamed list's boundary for
/// later client-side takeover.
pub open spec fn list_end_marker() -> Seq<char> {
    seq!['<', '!', '>']
}

impl<T, KF, VF, C: Copy> Keyed<T, KF, VF, C> where KF: Fn(&T) -> u64, VF: Fn(usize, &T) -> C {
    /// Streams the list as markup: each item's fragment in order, then the
    /// single trailing marker that delimits the list boundary.  Rendering
    /// one item is the caller's capability; this pass only arranges the
    /// fragments.
    pub fn to_html_with_buf<RF: Fn(usize, &T) -> String>(self, buf: &mut String, render: RF)
        requires
            forall|i: usize, x: &T| #[trigger] call_requires(render, (i, x)),
        ensures
            exists|frags: Seq<Seq<char>>| {
                &&& frags.len() == self.items@.len()
                &&& (forall|i: int| 0 <= i < frags.len()
                    ==> exists|s: String| s@ == #[trigger] frags[i]
                        && call_ensures(render, (i as usize, &self.items[i]), s))
                &&& final(buf)@ == old(buf)@ + concat_fragments(frags) + list_end_marker()
            },
    {
        let Keyed { items, key_fn: _, view_fn: _ } = self;
        let ghost buf0 = buf@;
        let ghost mut frags: Seq<Seq<char>> = Seq::empty();
        let n = items.len();
        for i in 0..n
            invariant
                n == items@.len(),
                frags.len() == i,
                forall|j: int| 0 <= j < frags.len()
                    ==> exists|s: String| s@ == #[trigger] frags[j]
                        && call_ensures(render, (j as usize, &items[j]), s),
                buf@ == buf0 + concat_fragments(frags),
                forall|ix: usize, x: &T| #[trigger] call_requires(render, (ix, x)),
        {
            let frag = render(i, &items[i]);
            proof {
                let pre = frags;
                frags = frags.push(frag@);
                assert(frags.drop_last() =~= pre);
                assert forall|j: int| 0 <= j < frags.len()
                    implies exists|s: String| s@ == #[trigger] frags[j]
                        && call_ensures(render, (j as usize, &items[j]), s) by {
                    if j < pre.len() {
                        assert(frags[j] == pre[j]);
                    } else {
                        assert(frags[j] == frag@);
                        assert(frag@ == frags[j]
                            && call_ensures(render, (j as usize, &items[j]), frag));
                    }
                }
            }
            buf.append(frag.as_str());
        }
        buf.append("<!>");
        proof {
            reveal_strlit("<!>");
            assert("<!>"@ =~= list_end_marker());
        }
    }
}

/// Collapsing duplicates never lengthens a key sequence.
pub proof fn lemma_dedup_len(s: Seq<u64>)
    ensures
        dedup_first(s).len() <= s.len(),
    decreases s.len(),
{
    if s.len() > 0 {
        lemma_dedup_len(s.drop_last());
    }
}

/// The structural facts of a diff between two duplicate-free orders that
/// its application relies on: every removal names a distinct old
/// position, every unit move a distinct source and a distinct in-range
/// destination away from the removals, every addition a distinct new
/// position, and the counts stay within the orders' lengths.
pub proof fn lemma_diff_shapes(f: Seq<u64>, t: Seq<u64>)
    requires
        f.no_duplicates(),
        t.no_duplicates(),
        f.len() <= usize::MAX,
        t.len() <= usize::MAX,
        f.len() + t.len() <= usize::MAX,
    ensures
        spec_clear(f, t) ==> spec_removed(f, t).len() == 0 && spec_moved(f, t).len() == 0
            && spec_unit_moves(f, t).len() == 0,
        crate::diffing::total_move_len(spec_moved(f, t)) == spec_unit_moves(f, t).len(),
        forall|j: int| 0 <= j < spec_moved(f, t).len() ==> {
            &&& (#[trigger] spec_moved(f, t)[j]).len >= 1
            &&& spec_moved(f, t)[j].from + spec_moved(f, t)[j].len <= usize::MAX
            &&& spec_moved(f, t)[j].to + spec_moved(f, t)[j].len <= usize::MAX
        },
        spec_unit_moves(f, t).len() + spec_added(f, t).len() + spec_removed(f, t).len()
            <= usize::MAX,
        forall|j: int| 0 <= j < spec_removed(f, t).len() ==> {
            &&& (#[trigger] spec_removed(f, t)[j]).at < f.len()
            &&& is_remove_at(f, t, spec_removed(f, t)[j].at as int)
        },
        forall|j: int, k: int| 0 <= j < k < spec_removed(f, t).len()
            ==> (#[trigger] spec_removed(f, t)[j]).at != (#[trigger] spec_removed(f, t)[k]).at,
        ({
            let units = expand_moves(spec_moved(f, t));
            &&& forall|j: int| 0 <= j < units.len() ==> {
                &&& (#[trigger] units[j]).from < f.len()
                &&& is_move_at(f, t, units[j].from as int)
                &&& units[j].to < t.len()
            }
            &&& forall|j: int, k: int| 0 <= j < k < units.len()
                ==> (#[trigger] units[j]).from != (#[trigger] units[k]).from
            &&& forall|j: int, k: int|
                0 <= j < units.len() && 0 <= k < spec_removed(f, t).len()
                ==> (#[trigger] units[j]).from != (#[trigger] spec_removed(f, t)[k]).at
        }),
        forall|j: int| 0 <= j < spec_added(f, t).len() ==> {
            &&& (#[trigger] spec_added(f, t)[j]).at < t.len()
            &&& (f.len() > 0 ==> is_add_at(f, t, spec_added(f, t)[j].at as int))
        },
        t.len() <= f.len() + spec_added(f, t).len(),
        spec_added(f, t).len() <= t.len(),
        spec_removed(f, t).len() <= f.len(),
        spec_unit_moves(f, t).len() <= f.len(),
        forall|p: int| 0 <= p < t.len() && #[trigger] is_add_at(f, t, p)
            ==> exists|j: int| 0 <= j < spec_added(f, t).len()
                && (#[trigger] spec_added(f, t)[j]).at == p,
{
    let sc = scan_len(f, t);
    if t.len() == 0 || f.len() == 0 {
        if t.len() > 0 {
            // A list built from nothing: one append per new position.
            assert(spec_unit_moves(f, t) =~= Seq::<DiffOpMove>::empty());
            assert(spec_moved(f, t) == group_moves(spec_unit_moves(f, t)));
            assert(spec_moved(f, t).len() == 0);
            assert(expand_moves(spec_moved(f, t)).len() == 0);
            assert(spec_added(f, t).len() == t.len());
            assert forall|j: int| 0 <= j < spec_added(f, t).len()
                implies (#[trigger] spec_added(f, t)[j]).at < t.len() by {}
            assert forall|p: int| 0 <= p < t.len() && #[trigger] is_add_at(f, t, p)
                implies exists|j: int| 0 <= j < spec_added(f, t).len()
                    && (#[trigger] spec_added(f, t)[j]).at == p by {
                assert(spec_added(f, t)[p].at == p);
            }
        } else {
            assert(spec_moved(f, t).len() == 0);
            assert(expand_moves(spec_moved(f, t)).len() == 0);
        }
    } else {
        lemma_removes_facts(f, t, sc);
        lemma_adds_facts(f, t, sc);
        lemma_moves_facts(f, t, sc);
        lemma_unit_moves_bounds(f, t, sc);
        lemma_unit_moves_count(f, t, sc);
        lemma_scan_counts(f, t, sc);
        lemma_moves_removes_count(f, t, sc);
        let us = spec_unit_moves(f, t);
        assert(us == crate::diffing::unit_moves_upto(f, t, sc));
        lemma_group_total(us);
        lemma_group_bounds(us, f.len() as int, t.len() as int);
        lemma_expand_group(us);
        let units = expand_moves(spec_moved(f, t));
        assert forall|j: int| 0 <= j < units.len() implies {
            &&& (#[trigger] units[j]).from < f.len()
            &&& is_move_at(f, t, units[j].from as int)
            &&& units[j].to < t.len()
        } by {
            assert(us[j] == move_op_at(f, t, us[j].from as int));
        }
        assert forall|j: int, k: int| 0 <= j < k < units.len()
            implies (#[trigger] units[j]).from != (#[trigger] units[k]).from by {
            assert(us[j].from < us[k].from);
        }
        assert forall|j: int, k: int|
            0 <= j < units.len() && 0 <= k < spec_removed(f, t).len()
            implies (#[trigger] units[j]).from != (#[trigger] spec_removed(f, t)[k]).at by {
            assert(is_move_at(f, t, us[j].from as int));
            assert(is_remove_at(f, t, spec_removed(f, t)[k].at as int));
        }
        lemma_adds_stable(f, t, sc);
        lemma_target_len_bound(f, t, t.len() as int);
    }
}

/// Instantiates the diff's structural facts as the preconditions of its
/// application to a whole retained state.
pub proof fn lemma_apply_preconditions<C>(f: Seq<u64>, t: Seq<u64>, ch: Seq<Option<C>>,
    nc: Seq<Option<C>>)
    requires
        f.no_duplicates(),
        t.no_duplicates(),
        f.len() <= usize::MAX,
        t.len() <= usize::MAX,
        f.len() + t.len() <= usize::MAX,
        ch.len() == f.len(),
        forall|i: int| 0 <= i < ch.len() ==> (#[trigger] ch[i]) is Some,
    ensures
        ({
            let base: Seq<Option<C>> = if spec_clear(f, t) { Seq::empty() } else { ch };
            let units = expand_moves(spec_moved(f, t));
            &&& (spec_clear(f, t) ==> spec_removed(f, t).len() == 0
                && spec_moved(f, t).len() == 0 && spec_unit_moves(f, t).len() == 0)
            &&& crate::diffing::total_move_len(spec_moved(f, t)) == spec_unit_moves(f, t).len()
            &&& forall|j: int| 0 <= j < spec_moved(f, t).len() ==> {
                &&& (#[trigger] spec_moved(f, t)[j]).len >= 1
                &&& spec_moved(f, t)[j].from + spec_moved(f, t)[j].len <= usize::MAX
                &&& spec_moved(f, t)[j].to + spec_moved(f, t)[j].len <= usize::MAX
            }
            &&& spec_unit_moves(f, t).len() + spec_added(f, t).len()
                + spec_removed(f, t).len() <= usize::MAX
            &&& base.len() + spec_added(f, t).len() <= usize::MAX
            &&& forall|j: int| 0 <= j < spec_removed(f, t).len() ==> {
                &&& (#[trigger] spec_removed(f, t)[j]).at < base.len()
                &&& base[spec_removed(f, t)[j].at as int] is Some
            }
            &&& forall|j: int, k: int| 0 <= j < k < spec_removed(f, t).len()
                ==> (#[trigger] spec_removed(f, t)[j]).at
                    != (#[trigger] spec_removed(f, t)[k]).at
            &&& forall|j: int| 0 <= j < units.len() ==> {
                &&& (#[trigger] units[j]).from < base.len()
                &&& base[units[j].from as int] is Some
                &&& units[j].to < base.len() + spec_added(f, t).len()
            }
            &&& forall|j: int, k: int| 0 <= j < k < units.len()
                ==> (#[trigger] units[j]).from != (#[trigger] units[k]).from
            &&& forall|j: int, k: int|
                0 <= j < units.len() && 0 <= k < spec_removed(f, t).len()
                ==> (#[trigger] units[j]).from != (#[trigger] spec_removed(f, t)[k]).at
        }),
{
    lemma_diff_shapes(f, t);
    let base: Seq<Option<C>> = if spec_clear(f, t) { Seq::empty() } else { ch };
    let units = expand_moves(spec_moved(f, t));
    if spec_clear(f, t) {
        assert(spec_moved(f, t) =~= Seq::<DiffOpMove>::empty());
        assert(units.len() == 0);
        assert(spec_added(f, t).len() == 0);
    } else {
        assert(base == ch);
        assert forall|j: int| 0 <= j < spec_removed(f, t).len() implies {
            &&& (#[trigger] spec_removed(f, t)[j]).at < base.len()
            &&& base[spec_removed(f, t)[j].at as int] is Some
        } by {
            assert(spec_removed(f, t)[j].at < f.len());
        }
        assert forall|j: int| 0 <= j < units.len() implies {
            &&& (#[trigger] units[j]).from < base.len()
            &&& base[units[j].from as int] is Some
            &&& units[j].to < base.len() + spec_added(f, t).len()
        } by {
            assert(units[j].from < f.len());
            assert(units[j].to < t.len());
            assert(t.len() <= f.len() + spec_added(f, t).len());
        }
    }
}

} // verus!
