//! The laws of the reconciliation engine, proved once over the
//! specification model that the executable functions' contracts speak of:
//! a pass fills exactly one slot per new key and leaves no hole; diffing a
//! key order against itself changes nothing; applying `diff(old, new)` to
//! slots aligned with `old` yields slots aligned with `new`, each
//! surviving key keeping its retained child; and the keys of one update
//! collapse duplicates to their first occurrence.

use vstd::prelude::*;
use crate::apply::{added_state, added_writes, compacted, detached_state, detached_vals,
    dom_state, dom_writes, lemma_added_state_pointwise, lemma_detached_state_holes,
    lemma_detached_state_len, lemma_detached_state_untouched, lemma_dom_state_pointwise,
    lemma_filter_some_prefix, lemma_removed_state_holes, lemma_removed_state_len,
    lemma_removed_state_untouched, lemma_storage_state_pointwise, padded_state,
    reconciled_slots, removed_state, storage_state, storage_writes};
use crate::diffing::{adds_upto, group_moves, is_add_at, is_move_at, is_remove_at,
    lemma_adds_facts, lemma_adds_stable, lemma_index_of_distinct, lemma_moves_facts,
    lemma_removes_facts, lemma_target_len_bound, lemma_unit_moves_bounds,
    lemma_unit_moves_count, move_op_at, removes_upto, scan_len, spec_added, spec_clear,
    spec_moved, spec_removed, spec_unit_moves, unit_moves_upto};
use crate::index_set::dedup_first;
use crate::ops::{DiffOpAdd, DiffOpMove, DiffOpRemove};
use crate::unpack::{expand_moves, lemma_expand_group};

verus! {

/// Diffing a key order against itself yields no removal, no move, no
/// addition and no clear.
pub proof fn lemma_diff_idempotent(s: Seq<u64>)
    ensures
        spec_removed(s, s) == Seq::<DiffOpRemove>::empty(),
        spec_added(s, s) == Seq::<DiffOpAdd>::empty(),
        spec_unit_moves(s, s) == Seq::<DiffOpMove>::empty(),
        spec_moved(s, s) == Seq::<DiffOpMove>::empty(),
        !spec_clear(s, s),
{
    lemma_self_scan_empty(s, scan_len(s, s));
}

/// No scan position of a self-diff emits an operation.
proof fn lemma_self_scan_empty(s: Seq<u64>, n: int)
    ensures
        removes_upto(s, s, n) == Seq::<DiffOpRemove>::empty(),
        adds_upto(s, s, n) == Seq::<DiffOpAdd>::empty(),
        unit_moves_upto(s, s, n) == Seq::<DiffOpMove>::empty(),
    decreases n,
{
    if n > 0 {
        lemma_self_scan_empty(s, n - 1);
        if n - 1 < s.len() {
            assert(s[n - 1] == s[n - 1]);
            assert(s.contains(s[n - 1]));
            assert(!is_remove_at(s, s, n - 1));
            assert(!is_add_at(s, s, n - 1));
            assert(!is_move_at(s, s, n - 1));
        }
    }
}

/// A duplicate-free key order is its own defining order: collapsing
/// duplicates changes nothing.
pub proof fn lemma_dedup_first_distinct(s: Seq<u64>)
    requires
        s.no_duplicates(),
    ensures
        dedup_first(s) == s,
    decreases s.len(),
{
    if s.len() > 0 {
        assert(s.drop_last().no_duplicates());
        lemma_dedup_first_distinct(s.drop_last());
        if dedup_first(s.drop_last()).contains(s.last()) {
            let i = choose|i: int| 0 <= i < s.drop_last().len() && s.drop_last()[i] == s.last();
            assert(s[i] == s[s.len() - 1]);
            assert(false);
        }
        assert(dedup_first(s) =~= s);
    }
}

/// One reconciliation pass, exactly: applying the diff between the old
/// and new key orders to a slot array aligned with the old order yields a
/// slot array aligned with the new order — one filled slot per new key,
/// no hole, every surviving key keeping the child it had, every fresh key
/// holding its newly built child.
pub proof fn lemma_pass_reaches_target<C>(f: Seq<u64>, t: Seq<u64>, ch: Seq<Option<C>>,
    nc: Seq<Option<C>>)
    requires
        f.no_duplicates(),
        t.no_duplicates(),
        f.len() <= usize::MAX,
        t.len() <= usize::MAX,
        ch.len() == f.len(),
        forall|i: int| 0 <= i < ch.len() ==> (#[trigger] ch[i]) is Some,
        nc.len() == t.len(),
        forall|p: int| 0 <= p < t.len() && is_add_at(f, t, p) ==> (#[trigger] nc[p]) is Some,
    ensures
        ({
            let result = reconciled_slots(ch, spec_removed(f, t),
                expand_moves(spec_moved(f, t)), spec_added(f, t), spec_clear(f, t), nc);
            &&& result.len() == t.len()
            &&& forall|p: int| 0 <= p < t.len() ==> (#[trigger] result[p]) is Some
            &&& forall|p: int| 0 <= p < t.len() ==> #[trigger] result[p] == (
                if f.contains(t[p]) {
                    ch[f.index_of(t[p])]
                } else {
                    nc[p]
                })
        }),
{
    let removed = spec_removed(f, t);
    let us = spec_unit_moves(f, t);
    let added = spec_added(f, t);
    let clear = spec_clear(f, t);
    let units = expand_moves(spec_moved(f, t));
    let result = reconciled_slots(ch, removed, units, added, clear, nc);

    if t.len() == 0 {
        let base: Seq<Option<C>> = if clear { Seq::empty() } else { ch };
        assert(base.len() == 0);
        assert(spec_moved(f, t) == Seq::<DiffOpMove>::empty());
        assert(units =~= Seq::<DiffOpMove>::empty());
        assert(removed_state(base, removed, 0) == base);
        assert(detached_state(base, units, 0) == base);
        assert(padded_state(base, 0) =~= base);
        assert(storage_state(padded_state(base, 0), units, detached_vals(base, units, 0), 0)
            == padded_state(base, 0));
        assert(result =~= Seq::<Option<C>>::empty());
    } else if f.len() == 0 {
        lemma_pass_from_empty(f, t, ch, nc);
    } else {
        lemma_pass_general(f, t, ch, nc);
    }
}

/// The pass that builds a list from nothing: every slot is filled by its
/// append-mode addition.
proof fn lemma_pass_from_empty<C>(f: Seq<u64>, t: Seq<u64>, ch: Seq<Option<C>>,
    nc: Seq<Option<C>>)
    requires
        f.no_duplicates(),
        t.no_duplicates(),
        f.len() == 0,
        t.len() > 0,
        t.len() <= usize::MAX,
        ch.len() == f.len(),
        nc.len() == t.len(),
        forall|p: int| 0 <= p < t.len() && is_add_at(f, t, p) ==> (#[trigger] nc[p]) is Some,
    ensures
        ({
            let result = reconciled_slots(ch, spec_removed(f, t),
                expand_moves(spec_moved(f, t)), spec_added(f, t), spec_clear(f, t), nc);
            &&& result.len() == t.len()
            &&& forall|p: int| 0 <= p < t.len() ==> (#[trigger] result[p]) is Some
            &&& forall|p: int| 0 <= p < t.len() ==> #[trigger] result[p] == (
                if f.contains(t[p]) {
                    ch[f.index_of(t[p])]
                } else {
                    nc[p]
                })
        }),
{
    let removed = spec_removed(f, t);
    let added = spec_added(f, t);
    let units = expand_moves(spec_moved(f, t));
    let clear = spec_clear(f, t);
    assert(!clear);
    assert(removed.len() == 0);
    assert(spec_unit_moves(f, t).len() == 0);
    assert(spec_moved(f, t) == group_moves(spec_unit_moves(f, t)));
    assert(spec_moved(f, t).len() == 0);
    assert(units.len() == 0);

    let base = ch;
    let st1 = removed_state(base, removed, 0);
    assert(st1 == base);
    let vals = detached_vals(st1, units, 0);
    let st2 = detached_state(st1, units, 0);
    assert(st2 == st1);
    let a_len = added.len() as int;
    assert(a_len == t.len());
    let st3 = padded_state(st2, a_len);
    assert(st3.len() == t.len());
    assert forall|p: int| 0 <= p < st3.len() implies !((#[trigger] st3[p]) is Some) by {}
    let st4 = storage_state(st3, units, vals, 0);
    assert(st4 == st3);
    let st5 = dom_state(st4, units, vals, 0);
    assert(st5 == st4);

    assert forall|k: int| 0 <= k < added.len() implies (#[trigger] added[k]).at == k
        && added[k].at < st5.len() by {}
    assert forall|k: int, l: int| 0 <= k < l < added.len()
        implies (#[trigger] added[k]).at != (#[trigger] added[l]).at by {}
    lemma_added_state_pointwise(st5, added, nc, a_len);
    let st6 = added_state(st5, added, nc, a_len);
    assert forall|p: int| 0 <= p < t.len() implies #[trigger] st6[p] == nc[p]
        && st6[p] is Some by {
        assert(added[p].at == p);
        assert(st6[added[p].at as int] == nc[added[p].at as int]);
        assert(!f.contains(t[p]));
        assert(is_add_at(f, t, p));
    }
    assert(st6.len() == t.len());
    lemma_filter_some_prefix(st6, t.len() as int);
    assert(compacted(st6) == st6.take(t.len() as int));
    assert(st6.take(t.len() as int) =~= st6);
    let result = reconciled_slots(ch, removed, units, added, clear, nc);
    assert(result == st6);
    assert forall|p: int| 0 <= p < t.len() implies #[trigger] result[p] == (
        if f.contains(t[p]) { ch[f.index_of(t[p])] } else { nc[p] }) by {
        assert(!f.contains(t[p]));
    }
}

/// The general pass, both orders non-empty: each new position receives
/// its key's retained child — in place when the key kept its position,
/// detached and re-placed when it moved — or its newly built child, and
/// every position past the new length ends as a hole that compaction
/// drops.
proof fn lemma_pass_general<C>(f: Seq<u64>, t: Seq<u64>, ch: Seq<Option<C>>,
    nc: Seq<Option<C>>)
    requires
        f.no_duplicates(),
        t.no_duplicates(),
        f.len() > 0,
        t.len() > 0,
        f.len() <= usize::MAX,
        t.len() <= usize::MAX,
        ch.len() == f.len(),
        forall|i: int| 0 <= i < ch.len() ==> (#[trigger] ch[i]) is Some,
        nc.len() == t.len(),
        forall|p: int| 0 <= p < t.len() && is_add_at(f, t, p) ==> (#[trigger] nc[p]) is Some,
    ensures
        ({
            let result = reconciled_slots(ch, spec_removed(f, t),
                expand_moves(spec_moved(f, t)), spec_added(f, t), spec_clear(f, t), nc);
            &&& result.len() == t.len()
            &&& forall|p: int| 0 <= p < t.len() ==> (#[trigger] result[p]) is Some
            &&& forall|p: int| 0 <= p < t.len() ==> #[trigger] result[p] == (
                if f.contains(t[p]) {
                    ch[f.index_of(t[p])]
                } else {
                    nc[p]
                })
        }),
{
    let sc = scan_len(f, t);
    let removed = spec_removed(f, t);
    let us = spec_unit_moves(f, t);
    let added = spec_added(f, t);
    let clear = spec_clear(f, t);
    let units = expand_moves(spec_moved(f, t));
    assert(!clear);
    assert(removed == removes_upto(f, t, sc));
    assert(us == unit_moves_upto(f, t, sc));
    assert(added == adds_upto(f, t, sc));

    lemma_removes_facts(f, t, sc);
    lemma_adds_facts(f, t, sc);
    lemma_moves_facts(f, t, sc);
    lemma_unit_moves_bounds(f, t, sc);
    lemma_unit_moves_count(f, t, sc);
    lemma_expand_group(us);
    assert(units.len() == us.len());

    // The additions can absorb the whole growth of the order.
    lemma_adds_stable(f, t, sc);
    lemma_target_len_bound(f, t, t.len() as int);
    assert(t.len() <= f.len() + added.len());

    // Unit-move coordinates, transferred through grouping and expansion.
    assert forall|j: int| 0 <= j < units.len() implies {
        &&& (#[trigger] units[j]).from == us[j].from
        &&& units[j].to == us[j].to
        &&& is_move_at(f, t, units[j].from as int)
        &&& us[j] == move_op_at(f, t, units[j].from as int)
        &&& units[j].from < f.len()
        &&& units[j].to < t.len()
    } by {
        assert(us[j] == move_op_at(f, t, us[j].from as int));
    }

    // Destinations are pairwise distinct: distinct sources carry distinct
    // keys, and a key has one position in the new order.
    assert forall|j: int, k: int| 0 <= j < k < units.len()
        implies (#[trigger] units[j]).to != (#[trigger] units[k]).to by {
        let fj = units[j].from as int;
        let fk = units[k].from as int;
        assert(us[j].from < us[k].from);
        assert(f[fj] != f[fk]);
        let pj = t.index_of(f[fj]);
        let pk = t.index_of(f[fk]);
        assert(t.contains(f[fj]));
        assert(0 <= pj < t.len() && t[pj] == f[fj]);
        assert(t.contains(f[fk]));
        assert(0 <= pk < t.len() && t[pk] == f[fk]);
        if pj == pk {
            assert(false);
        }
    }
    assert forall|j: int, k: int| 0 <= j < k < units.len()
        implies (#[trigger] units[j]).from != (#[trigger] units[k]).from by {
        assert(us[j].from < us[k].from);
    }

    let base = ch;
    let r_len = removed.len() as int;
    let u_len = units.len() as int;
    let a_len = added.len() as int;
    let st1 = removed_state(base, removed, r_len);
    let vals = detached_vals(st1, units, u_len);
    let st2 = detached_state(st1, units, u_len);
    let st3 = padded_state(st2, a_len);
    let st4 = storage_state(st3, units, vals, u_len);
    let st5 = dom_state(st4, units, vals, u_len);
    let st6 = added_state(st5, added, nc, a_len);

    lemma_removed_state_len(base, removed, r_len);
    lemma_removed_state_holes(base, removed, r_len);
    lemma_detached_state_len(st1, units, u_len);
    lemma_detached_state_holes(st1, units, u_len);
    assert(st3.len() == f.len() + a_len);
    assert forall|k: int| 0 <= k < units.len() implies (#[trigger] units[k]).to < st3.len() by {}
    lemma_storage_state_pointwise(st3, units, vals, u_len);
    assert(st4.len() == st3.len());
    lemma_dom_state_pointwise(st4, units, vals, u_len);
    assert(st5.len() == st3.len());
    assert forall|k: int| 0 <= k < added.len() implies (#[trigger] added[k]).at < st5.len()
        && added[k].at < t.len() by {
        assert(is_add_at(f, t, added[k].at as int));
    }
    lemma_added_state_pointwise(st5, added, nc, a_len);
    assert(st6.len() == st3.len());

    // Every moved child was present in the old array and survives the
    // removal holes: moving and removing never hit the same position.
    assert forall|j: int| 0 <= j < units.len() implies (#[trigger] vals[j]) is Some
        && vals[j] == ch[units[j].from as int] by {
        let i = units[j].from as int;
        assert(is_move_at(f, t, i));
        assert forall|k: int| 0 <= k < removed.len()
            implies (#[trigger] removed[k]).at != i by {
            assert(is_remove_at(f, t, removed[k].at as int));
        }
        lemma_removed_state_untouched(base, removed, r_len, i);
        assert(vals[j] == st1[i]);
    }

    // Each new position receives exactly its key's child.
    assert forall|p: int| 0 <= p < t.len() implies (#[trigger] st6[p]) is Some
        && st6[p] == (if f.contains(t[p]) { ch[f.index_of(t[p])] } else { nc[p] }) by {
        if f.contains(t[p]) {
            let i = f.index_of(t[p]);
            assert(0 <= i < f.len() && f[i] == t[p]);
            assert(!is_add_at(f, t, p));
            assert forall|k: int| 0 <= k < added.len()
                implies (#[trigger] added[k]).at != p by {
                assert(is_add_at(f, t, added[k].at as int));
            }
            assert(!added_writes(added, a_len, p));
            assert(st6[p] == st5[p]);
            if i < t.len() && t[i] == f[i] {
                // The key kept its position: every phase leaves the slot
                // alone.
                assert(t[i] == t[p]);
                assert(i == p);
                assert(!is_remove_at(f, t, p));
                assert(!is_move_at(f, t, p));
                assert forall|k: int| 0 <= k < removed.len()
                    implies (#[trigger] removed[k]).at != p by {
                    assert(is_remove_at(f, t, removed[k].at as int));
                }
                lemma_removed_state_untouched(base, removed, r_len, p);
                assert forall|k: int| 0 <= k < units.len()
                    implies (#[trigger] units[k]).from != p by {
                    assert(is_move_at(f, t, units[k].from as int));
                }
                lemma_detached_state_untouched(st1, units, u_len, p);
                assert(st3[p] == st2[p]);
                assert forall|k: int| 0 <= k < units.len()
                    implies (#[trigger] units[k]).to != p by {
                    let fk = units[k].from as int;
                    let pk = t.index_of(f[fk]);
                    assert(t.contains(f[fk]));
                    assert(0 <= pk < t.len() && t[pk] == f[fk]);
                    if units[k].to as int == p {
                        assert(f[fk] == t[p]);
                        assert(f[fk] == f[i]);
                        assert(fk == i);
                        assert(is_move_at(f, t, p));
                        assert(false);
                    }
                }
                assert(!storage_writes(units, u_len, p));
                assert(!dom_writes(units, u_len, p));
                assert(st4[p] == st3[p]);
                assert(st5[p] == st4[p]);
                assert(st6[p] == ch[p]);
                assert(ch[p] is Some);
            } else {
                // The key moved: the unit move that carries it targets
                // exactly this position.
                assert(is_move_at(f, t, i));
                let j = choose|j: int| 0 <= j < us.len() && (#[trigger] us[j]).from == i;
                assert(us[j] == move_op_at(f, t, i));
                lemma_index_of_distinct(t, t[p], p);
                assert(t.contains(f[i]));
                assert(t.index_of(f[i]) == p);
                assert(units[j].to as int == p);
                assert(units[j].from as int == i);
                assert(vals[j] == ch[i]);
                if !units[j].move_in_dom {
                    assert(st4[p] == vals[j]);
                    assert(!dom_writes(units, u_len, p)) by {
                        if dom_writes(units, u_len, p) {
                            let k = choose|k: int| 0 <= k < u_len
                                && (#[trigger] units[k]).move_in_dom && units[k].to == p;
                            assert(units[k].to == units[j].to);
                            assert(k == j);
                            assert(false);
                        }
                    }
                    assert(st5[p] == st4[p]);
                } else {
                    assert(st5[p] == vals[j]);
                }
                assert(st6[p] == ch[i]);
                assert(ch[i] is Some);
            }
        } else {
            // A fresh key: its addition fills the slot.
            assert(is_add_at(f, t, p));
            let k = choose|k: int| 0 <= k < added.len() && (#[trigger] added[k]).at == p;
            assert(st6[added[k].at as int] == nc[added[k].at as int]);
            assert(st6[p] == nc[p]);
            assert(nc[p] is Some);
        }
    }

    // Every position past the new length ends as a hole.
    assert forall|p: int| t.len() <= p < st6.len() implies !((#[trigger] st6[p]) is Some) by {
        assert forall|k: int| 0 <= k < added.len() implies (#[trigger] added[k]).at != p by {
            assert(is_add_at(f, t, added[k].at as int));
        }
        assert(!added_writes(added, a_len, p));
        assert forall|k: int| 0 <= k < units.len() implies (#[trigger] units[k]).to != p by {}
        assert(!storage_writes(units, u_len, p));
        assert(!dom_writes(units, u_len, p));
        assert(st6[p] == st5[p]);
        assert(st5[p] == st4[p]);
        assert(st4[p] == st3[p]);
        if p < f.len() {
            assert(st3[p] == st2[p]);
            if t.contains(f[p]) {
                assert(is_move_at(f, t, p));
                let j = choose|j: int| 0 <= j < us.len() && (#[trigger] us[j]).from == p;
                assert(units[j].from as int == p);
                assert(detached_state(st1, units, u_len)[units[j].from as int] is None);
            } else {
                assert(is_remove_at(f, t, p));
                let k = choose|k: int| 0 <= k < removed.len()
                    && (#[trigger] removed[k]).at == p;
                assert(removed_state(base, removed, r_len)[removed[k].at as int] is None);
                assert forall|l: int| 0 <= l < units.len()
                    implies (#[trigger] units[l]).from != p by {
                    assert(is_move_at(f, t, units[l].from as int));
                }
                lemma_detached_state_untouched(st1, units, u_len, p);
            }
        } else {
            assert(!(st3[p] is Some));
        }
    }

    lemma_filter_some_prefix(st6, t.len() as int);
    assert(compacted(st6) == st6.take(t.len() as int));
    let result = reconciled_slots(ch, removed, units, added, clear, nc);
    assert(result == compacted(st6));
    assert forall|p: int| 0 <= p < t.len() implies #[trigger] result[p] == st6[p] by {}
}

} // verus!
