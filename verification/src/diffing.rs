//! The diff engine: computes the structured diff between an old and a new
//! ordered key index, coalescing consecutive unit moves into ranged moves.
//!
//! The diff is a single-pass positional scan, not a minimal edit script.
//! At each scan position it emits a removal for a key that disappears, an
//! addition for a key that appears, and a move for a key that survives at
//! another position.  Whether a move needs a real-tree mutation is decided
//! by a running-count heuristic: the key's net shift is compared with the
//! surplus of additions over removals emitted so far, and a shift that the
//! surrounding churn already absorbs is bookkeeping only.

use vstd::prelude::*;
use crate::index_set::{key_seq, key_set_contains, key_set_get_index, key_set_get_index_of,
    key_set_len, FxIndexSet};
use crate::ops::{Diff, DiffOpAdd, DiffOpAddMode, DiffOpMove, DiffOpRemove};

verus! {

/// The scan removes the key at position `i` of the old order: it exists
/// there and the new order no longer holds it.
pub open spec fn is_remove_at(f: Seq<u64>, t: Seq<u64>, i: int) -> bool {
    0 <= i < f.len() && !t.contains(f[i])
}

/// The scan adds the key at position `i` of the new order: it exists there
/// and the old order did not hold it.
pub open spec fn is_add_at(f: Seq<u64>, t: Seq<u64>, i: int) -> bool {
    0 <= i < t.len() && !f.contains(t[i])
}

/// The scan moves the key at position `i` of the old order: the new order
/// still holds it, somewhere other than at `i`.
pub open spec fn is_move_at(f: Seq<u64>, t: Seq<u64>, i: int) -> bool {
    0 <= i < f.len() && t.contains(f[i]) && !(i < t.len() && t[i] == f[i])
}

/// The removals the scan has emitted at positions below `n`, in scan order.
pub open spec fn removes_upto(f: Seq<u64>, t: Seq<u64>, n: int) -> Seq<DiffOpRemove>
    decreases n,
{
    if n <= 0 {
        Seq::empty()
    } else if is_remove_at(f, t, n - 1) {
        removes_upto(f, t, n - 1).push(DiffOpRemove { at: (n - 1) as usize })
    } else {
        removes_upto(f, t, n - 1)
    }
}

/// The additions the scan has emitted at positions below `n`, in scan order.
pub open spec fn adds_upto(f: Seq<u64>, t: Seq<u64>, n: int) -> Seq<DiffOpAdd>
    decreases n,
{
    if n <= 0 {
        Seq::empty()
    } else if is_add_at(f, t, n - 1) {
        adds_upto(f, t, n - 1).push(DiffOpAdd { at: (n - 1) as usize, mode: DiffOpAddMode::Normal })
    } else {
        adds_upto(f, t, n - 1)
    }
}

/// The unit move the scan emits at position `i`: one item, from `i` to the
/// key's position in the new order.  The move needs a real-tree mutation
/// exactly when the shift differs from the surplus of additions over
/// removals emitted up to and including this scan position.
pub open spec fn move_op_at(f: Seq<u64>, t: Seq<u64>, i: int) -> DiffOpMove {
    let p = t.index_of(f[i]);
    DiffOpMove {
        from: i as usize,
        len: 1,
        to: p as usize,
        move_in_dom: p - i != adds_upto(f, t, i + 1).len() - removes_upto(f, t, i + 1).len(),
    }
}

/// The unit moves the scan has emitted at positions below `n`, in scan order.
pub open spec fn unit_moves_upto(f: Seq<u64>, t: Seq<u64>, n: int) -> Seq<DiffOpMove>
    decreases n,
{
    if n <= 0 {
        Seq::empty()
    } else if is_move_at(f, t, n - 1) {
        unit_moves_upto(f, t, n - 1).push(move_op_at(f, t, n - 1))
    } else {
        unit_moves_upto(f, t, n - 1)
    }
}

/// How far the scan runs: to the end of the longer order.
pub open spec fn scan_len(f: Seq<u64>, t: Seq<u64>) -> int {
    if f.len() >= t.len() { f.len() as int } else { t.len() as int }
}

/// A move continues the previous one when it takes the next item of the
/// same source range to the next slot of the same destination range.
pub open spec fn merges_with(p: DiffOpMove, m: DiffOpMove) -> bool {
    m.from == p.from + p.len && m.to == p.to + p.len
}

/// One step of move grouping: extend the last group by one item when the
/// move continues it, else open a new group.  An extended group keeps the
/// tree-mutation flag of its first move.
pub open spec fn group_step(acc: Seq<DiffOpMove>, m: DiffOpMove) -> Seq<DiffOpMove> {
    if acc.len() > 0 && merges_with(acc.last(), m) {
        acc.update(
            acc.len() - 1,
            DiffOpMove {
                from: acc.last().from,
                len: (acc.last().len + 1) as usize,
                to: acc.last().to,
                move_in_dom: acc.last().move_in_dom,
            },
        )
    } else {
        acc.push(m)
    }
}

/// Moves coalesced left to right: consecutive unit moves become one ranged
/// move; order is preserved.
pub open spec fn group_moves(ms: Seq<DiffOpMove>) -> Seq<DiffOpMove>
    decreases ms.len(),
{
    if ms.len() == 0 {
        Seq::empty()
    } else {
        group_step(group_moves(ms.drop_last()), ms.last())
    }
}

/// The total number of single items moved, over all ranges.
pub open spec fn total_move_len(ms: Seq<DiffOpMove>) -> int
    decreases ms.len(),
{
    if ms.len() == 0 {
        0
    } else {
        total_move_len(ms.drop_last()) + ms.last().len
    }
}

/// The removals of `diff(f, t)`: none when either order is empty.
pub open spec fn spec_removed(f: Seq<u64>, t: Seq<u64>) -> Seq<DiffOpRemove> {
    if t.len() == 0 || f.len() == 0 {
        Seq::empty()
    } else {
        removes_upto(f, t, scan_len(f, t))
    }
}

/// The additions of `diff(f, t)`: the whole new order in append mode when
/// the old order is empty, else the scan's additions.
pub open spec fn spec_added(f: Seq<u64>, t: Seq<u64>) -> Seq<DiffOpAdd> {
    if t.len() == 0 {
        Seq::empty()
    } else if f.len() == 0 {
        Seq::new(t.len(), |i: int| DiffOpAdd { at: i as usize, mode: DiffOpAddMode::Append })
    } else {
        adds_upto(f, t, scan_len(f, t))
    }
}

/// The unit moves of `diff(f, t)` before grouping.
pub open spec fn spec_unit_moves(f: Seq<u64>, t: Seq<u64>) -> Seq<DiffOpMove> {
    if t.len() == 0 || f.len() == 0 {
        Seq::empty()
    } else {
        unit_moves_upto(f, t, scan_len(f, t))
    }
}

/// The moves of `diff(f, t)`: the scan's unit moves, grouped.
pub open spec fn spec_moved(f: Seq<u64>, t: Seq<u64>) -> Seq<DiffOpMove> {
    group_moves(spec_unit_moves(f, t))
}

/// `diff(f, t)` clears wholesale exactly when the new order is empty and
/// the old one is not.
pub open spec fn spec_clear(f: Seq<u64>, t: Seq<u64>) -> bool {
    t.len() == 0 && f.len() > 0
}

/// The scan emits at most one removal per old position below the scan
/// point, and at most one addition per new position below it.
pub proof fn lemma_scan_counts(f: Seq<u64>, t: Seq<u64>, n: int)
    ensures
        removes_upto(f, t, n).len() <= f.len(),
        adds_upto(f, t, n).len() <= t.len(),
        n >= 0 ==> removes_upto(f, t, n).len() <= n,
        n >= 0 ==> adds_upto(f, t, n).len() <= n,
    decreases n,
{
    if n > 0 {
        lemma_scan_counts(f, t, n - 1);
    }
}

/// In a duplicate-free sequence the position of a present key is unique.
pub proof fn lemma_index_of_distinct(s: Seq<u64>, k: u64, p: int)
    requires
        s.no_duplicates(),
        0 <= p < s.len(),
        s[p] == k,
    ensures
        s.index_of(k) == p,
{
    assert(s.contains(k));
    let q = s.index_of(k);
    assert(0 <= q < s.len() && s[q] == k);
}

/// Every unit move the scan emits moves exactly one item, from inside the
/// old order to inside the new one.
pub proof fn lemma_unit_moves_bounds(f: Seq<u64>, t: Seq<u64>, n: int)
    ensures
        forall|j: int| 0 <= j < unit_moves_upto(f, t, n).len() ==> {
            &&& (#[trigger] unit_moves_upto(f, t, n)[j]).len == 1
            &&& unit_moves_upto(f, t, n)[j].from + 1 <= f.len()
            &&& unit_moves_upto(f, t, n)[j].to + 1 <= t.len()
        },
    decreases n,
{
    if n > 0 {
        lemma_unit_moves_bounds(f, t, n - 1);
        let prev = unit_moves_upto(f, t, n - 1);
        let cur = unit_moves_upto(f, t, n);
        if is_move_at(f, t, n - 1) {
            let q = t.index_of(f[n - 1]);
            assert(t.contains(f[n - 1]));
            assert(0 <= q < t.len() && t[q] == f[n - 1]);
            assert(cur == prev.push(move_op_at(f, t, n - 1)));
            assert forall|j: int| 0 <= j < cur.len() implies {
                &&& (#[trigger] cur[j]).len == 1
                &&& cur[j].from + 1 <= f.len()
                &&& cur[j].to + 1 <= t.len()
            } by {
                if j < prev.len() {
                    assert(cur[j] == prev[j]);
                } else {
                    assert(cur[j] == move_op_at(f, t, n - 1));
                }
            }
        }
    }
}

/// The total of a group list's lengths is never negative.
pub proof fn lemma_total_nonneg(ms: Seq<DiffOpMove>)
    ensures
        total_move_len(ms) >= 0,
    decreases ms.len(),
{
    if ms.len() > 0 {
        lemma_total_nonneg(ms.drop_last());
    }
}

/// Grouping unit moves preserves the total number of items moved.
pub proof fn lemma_group_total(ms: Seq<DiffOpMove>)
    requires
        ms.len() <= usize::MAX,
        forall|j: int| 0 <= j < ms.len() ==> (#[trigger] ms[j]).len == 1,
    ensures
        total_move_len(group_moves(ms)) == ms.len(),
    decreases ms.len(),
{
    if ms.len() == 0 {
    } else {
        let prefix = ms.drop_last();
        lemma_group_total(prefix);
        let acc = group_moves(prefix);
        let m = ms.last();
        assert(m == ms[ms.len() - 1]);
        if acc.len() > 0 && merges_with(acc.last(), m) {
            let acc2 = group_step(acc, m);
            lemma_total_nonneg(acc.drop_last());
            assert(total_move_len(acc) == total_move_len(acc.drop_last()) + acc.last().len);
            assert(acc.last().len + 1 <= usize::MAX);
            assert(acc2.last().len == acc.last().len + 1);
            assert(acc2.drop_last() =~= acc.drop_last());
            assert(total_move_len(acc2) == total_move_len(acc2.drop_last()) + acc2.last().len);
            assert(group_moves(ms) == acc2);
        } else {
            let acc2 = group_step(acc, m);
            assert(acc2 == acc.push(m));
            assert(acc2.drop_last() =~= acc);
            assert(acc2.last() == m);
            assert(total_move_len(acc2) == total_move_len(acc) + m.len);
            assert(group_moves(ms) == acc2);
        }
    }
}

/// Coalesces consecutive unit moves: a move whose source and destination
/// both continue the previous group extends it by one item; any other move
/// opens a new group.  Order is preserved and the total number of moved
/// items is unchanged.
pub fn group_adjacent_moves(moved: Vec<DiffOpMove>) -> (r: Vec<DiffOpMove>)
    requires
        forall|j: int| 0 <= j < moved@.len() ==> {
            &&& (#[trigger] moved@[j]).len >= 1
            &&& moved@[j].from + moved@[j].len <= usize::MAX
            &&& moved@[j].to + moved@[j].len <= usize::MAX
        },
    ensures
        r@ == group_moves(moved@),
{
    let mut prev: Option<DiffOpMove> = None;
    let mut new_moved: Vec<DiffOpMove> = Vec::with_capacity(moved.len());
    let n = moved.len();
    for idx in 0..n
        invariant
            n == moved@.len(),
            forall|j: int| 0 <= j < moved@.len() ==> {
                &&& (#[trigger] moved@[j]).len >= 1
                &&& moved@[j].from + moved@[j].len <= usize::MAX
                &&& moved@[j].to + moved@[j].len <= usize::MAX
            },
            match prev {
                Some(p) => {
                    &&& group_moves(moved@.take(idx as int)) == new_moved@.push(p)
                    &&& p.from + p.len <= usize::MAX
                    &&& p.to + p.len <= usize::MAX
                },
                None => idx == 0 && new_moved@.len() == 0,
            },
    {
        let m = moved[idx];
        proof {
            assert(moved@.take(idx + 1).drop_last() =~= moved@.take(idx as int));
            assert(moved@.take(idx + 1).last() == moved@[idx as int]);
            assert(group_moves(moved@.take(idx + 1))
                == group_step(group_moves(moved@.take(idx as int)), m));
        }
        match prev {
            Some(p) => {
                if m.from == p.from + p.len && m.to == p.to + p.len {
                    let merged = DiffOpMove {
                        from: p.from,
                        len: p.len + 1,
                        to: p.to,
                        move_in_dom: p.move_in_dom,
                    };
                    proof {
                        let acc = new_moved@.push(p);
                        assert(acc.last() == p);
                        assert(group_step(acc, m) =~= new_moved@.push(merged));
                    }
                    prev = Some(merged);
                } else {
                    proof {
                        let acc = new_moved@.push(p);
                        assert(acc.last() == p);
                        assert(!merges_with(p, m));
                        assert(group_step(acc, m) =~= new_moved@.push(p).push(m));
                    }
                    new_moved.push(p);
                    prev = Some(m);
                }
            }
            None => {
                proof {
                    assert(moved@.take(idx as int) =~= Seq::<DiffOpMove>::empty());
                    assert(group_step(Seq::<DiffOpMove>::empty(), m) =~= new_moved@.push(m));
                }
                prev = Some(m);
            }
        }
    }
    proof {
        assert(moved@.take(n as int) =~= moved@);
    }
    if let Some(p) = prev {
        new_moved.push(p);
    }
    new_moved
}

/// Computes the operations needed to get from the key order `from` to the
/// key order `to`.
///
/// Both orders empty yields the empty diff; an emptied order yields the
/// clear marker; a freshly filled order yields one append-mode addition per
/// key.  Otherwise one positional scan emits removals, additions and unit
/// moves as `is_remove_at`, `is_add_at` and `is_move_at` describe, and the
/// unit moves leave grouped.
pub fn diff(from: &FxIndexSet, to: &FxIndexSet) -> (r: Diff)
    requires
        key_seq(*from).no_duplicates(),
        key_seq(*to).no_duplicates(),
        key_seq(*from).len() + key_seq(*to).len() <= usize::MAX,
    ensures
        r.clear == spec_clear(key_seq(*from), key_seq(*to)),
        r.removed@ == spec_removed(key_seq(*from), key_seq(*to)),
        r.added@ == spec_added(key_seq(*from), key_seq(*to)),
        r.moved@ == spec_moved(key_seq(*from), key_seq(*to)),
        r.items_to_move == spec_unit_moves(key_seq(*from), key_seq(*to)).len(),
{
    let ghost f = key_seq(*from);
    let ghost t = key_seq(*to);
    let f_len = key_set_len(from);
    let t_len = key_set_len(to);

    if f_len == 0 && t_len == 0 {
        return Diff::default();
    } else if t_len == 0 {
        let mut r = Diff::default();
        r.clear = true;
        return r;
    } else if f_len == 0 {
        let mut added: Vec<DiffOpAdd> = Vec::new();
        for at in 0..t_len
            invariant
                added@.len() == at,
                forall|j: int| 0 <= j < at ==> #[trigger] added@[j]
                    == (DiffOpAdd { at: j as usize, mode: DiffOpAddMode::Append }),
        {
            added.push(DiffOpAdd { at, mode: DiffOpAddMode::Append });
        }
        proof {
            assert(added@ =~= spec_added(f, t));
        }
        let mut r = Diff::default();
        r.added = added;
        return r;
    }

    let max_len = if f_len > t_len { f_len } else { t_len };
    let mut removed: Vec<DiffOpRemove> = Vec::new();
    let mut unit_moved: Vec<DiffOpMove> = Vec::new();
    let mut added: Vec<DiffOpAdd> = Vec::new();

    for index in 0..max_len
        invariant
            f == key_seq(*from),
            t == key_seq(*to),
            f.no_duplicates(),
            t.no_duplicates(),
            f.len() == f_len,
            t.len() == t_len,
            f_len > 0,
            t_len > 0,
            f_len + t_len <= usize::MAX,
            max_len == scan_len(f, t),
            removed@ == removes_upto(f, t, index as int),
            added@ == adds_upto(f, t, index as int),
            unit_moved@ == unit_moves_upto(f, t, index as int),
    {
        let from_item = key_set_get_index(from, index);
        let to_item = key_set_get_index(to, index);

        let same = match (from_item, to_item) {
            (Some(a), Some(b)) => a == b,
            (None, None) => true,
            _ => false,
        };

        if same {
            // An unchanged position: the key is its own witness that both
            // orders still hold it, so no operation applies here.
            proof {
                if index < f_len {
                    assert(t[index as int] == f[index as int]);
                    assert(t.contains(f[index as int]));
                    assert(!is_remove_at(f, t, index as int));
                    assert(!is_move_at(f, t, index as int));
                    assert(f.contains(t[index as int]));
                    assert(!is_add_at(f, t, index as int));
                } else {
                    assert(!(index < f_len) && !(index < t_len));
                }
            }
        } else {
            if let Some(fk) = from_item {
                if !key_set_contains(to, fk) {
                    removed.push(DiffOpRemove { at: index });
                }
            }
            if let Some(tk) = to_item {
                if !key_set_contains(from, tk) {
                    added.push(DiffOpAdd { at: index, mode: DiffOpAddMode::Normal });
                }
            }
            proof {
                assert(removed@ == removes_upto(f, t, index + 1));
                assert(added@ == adds_upto(f, t, index + 1));
            }
            if let Some(fk) = from_item {
                if let Some(p) = key_set_get_index_of(to, fk) {
                    proof {
                        lemma_scan_counts(f, t, index + 1);
                        lemma_index_of_distinct(t, fk, p as int);
                        assert(is_move_at(f, t, index as int));
                    }
                    let move_in_dom = p + removed.len() != index + added.len();
                    unit_moved.push(DiffOpMove { from: index, len: 1, to: p, move_in_dom });
                    proof {
                        assert(unit_moved@ == unit_moves_upto(f, t, index + 1));
                    }
                } else {
                    proof {
                        assert(!is_move_at(f, t, index as int));
                    }
                }
            }
        }
    }

    proof {
        lemma_unit_moves_bounds(f, t, scan_len(f, t));
        lemma_unit_moves_count(f, t, scan_len(f, t));
        assert(unit_moved@.len() <= f.len());
        lemma_group_total(unit_moved@);
    }

    let moved = group_adjacent_moves(unit_moved);

    let mut items_to_move: usize = 0;
    let m_len = moved.len();
    for j in 0..m_len
        invariant
            m_len == moved@.len(),
            moved@ == spec_moved(f, t),
            total_move_len(moved@) == spec_unit_moves(f, t).len(),
            spec_unit_moves(f, t).len() <= f.len(),
            f.len() <= usize::MAX,
            items_to_move == total_move_len(moved@.take(j as int)),
            items_to_move <= spec_unit_moves(f, t).len(),
    {
        proof {
            assert(moved@.take(j + 1).drop_last() =~= moved@.take(j as int));
            lemma_total_move_len_prefix(moved@, j + 1);
        }
        items_to_move = items_to_move + moved[j].len;
    }
    proof {
        assert(moved@.take(m_len as int) =~= moved@);
    }

    Diff { removed, moved, items_to_move, added, clear: false }
}

/// The items moved by a prefix of the groups never exceed those moved by
/// the whole, group lengths being nonnegative.
pub proof fn lemma_total_move_len_prefix(ms: Seq<DiffOpMove>, n: int)
    requires
        0 <= n <= ms.len(),
    ensures
        total_move_len(ms.take(n)) <= total_move_len(ms),
    decreases ms.len() - n,
{
    if n == ms.len() {
        assert(ms.take(n) =~= ms);
    } else {
        lemma_total_move_len_prefix(ms, n + 1);
        assert(ms.take(n + 1).drop_last() =~= ms.take(n));
        assert(total_move_len(ms.take(n + 1)) == total_move_len(ms.take(n)) + ms[n].len);
    }
}

/// The number of unit moves the scan emits never exceeds the old order's
/// length: at most one per scanned old position.
pub proof fn lemma_unit_moves_count(f: Seq<u64>, t: Seq<u64>, n: int)
    ensures
        unit_moves_upto(f, t, n).len() <= if n >= 0 { n } else { 0 },
        n >= f.len() ==> unit_moves_upto(f, t, n).len() <= f.len(),
    decreases n,
{
    if n > 0 {
        lemma_unit_moves_count(f, t, n - 1);
        if n - 1 >= f.len() {
            assert(!is_move_at(f, t, n - 1));
        }
    }
}

/// An old position is either kept, removed or moved, never two of these,
/// so the removals and unit moves together never outnumber the scanned old
/// positions.
pub proof fn lemma_moves_removes_count(f: Seq<u64>, t: Seq<u64>, n: int)
    ensures
        n >= 0 ==> removes_upto(f, t, n).len() + unit_moves_upto(f, t, n).len() <= n,
        n >= f.len() ==> removes_upto(f, t, n).len() + unit_moves_upto(f, t, n).len() <= f.len(),
    decreases n,
{
    if n > 0 {
        lemma_moves_removes_count(f, t, n - 1);
        if n - 1 >= f.len() {
            assert(!is_remove_at(f, t, n - 1));
            assert(!is_move_at(f, t, n - 1));
        }
    }
}

/// The removal list holds exactly the old positions whose key the new
/// order dropped, in ascending order.
pub proof fn lemma_removes_facts(f: Seq<u64>, t: Seq<u64>, n: int)
    requires
        n <= usize::MAX,
    ensures
        ({
            let r = removes_upto(f, t, n);
            &&& forall|j: int| 0 <= j < r.len()
                ==> (#[trigger] r[j]).at < n && is_remove_at(f, t, r[j].at as int)
            &&& forall|j: int, k: int| 0 <= j < k < r.len()
                ==> (#[trigger] r[j]).at < (#[trigger] r[k]).at
            &&& forall|i: int| 0 <= i < n && is_remove_at(f, t, i)
                ==> exists|j: int| 0 <= j < r.len() && (#[trigger] r[j]).at == i
        }),
    decreases n,
{
    if n > 0 {
        lemma_removes_facts(f, t, n - 1);
        let prev = removes_upto(f, t, n - 1);
        let r = removes_upto(f, t, n);
        if is_remove_at(f, t, n - 1) {
            assert(r[r.len() - 1].at == n - 1);
            assert forall|i: int| 0 <= i < n && is_remove_at(f, t, i)
                implies exists|j: int| 0 <= j < r.len() && (#[trigger] r[j]).at == i by {
                if i < n - 1 {
                    let j = choose|j: int| 0 <= j < prev.len() && (#[trigger] prev[j]).at == i;
                    assert(r[j].at == i);
                } else {
                    assert(r[r.len() - 1].at == i);
                }
            }
        } else {
            assert forall|i: int| 0 <= i < n && is_remove_at(f, t, i)
                implies exists|j: int| 0 <= j < r.len() && (#[trigger] r[j]).at == i by {
                let j = choose|j: int| 0 <= j < prev.len() && (#[trigger] prev[j]).at == i;
                assert(r[j].at == i);
            }
        }
    }
}

/// The addition list holds exactly the new positions whose key the old
/// order lacked, in ascending order, all in normal mode.
pub proof fn lemma_adds_facts(f: Seq<u64>, t: Seq<u64>, n: int)
    requires
        n <= usize::MAX,
    ensures
        ({
            let a = adds_upto(f, t, n);
            &&& forall|j: int| 0 <= j < a.len() ==> (#[trigger] a[j]).at < n
                && is_add_at(f, t, a[j].at as int) && a[j].mode == DiffOpAddMode::Normal
            &&& forall|j: int, k: int| 0 <= j < k < a.len()
                ==> (#[trigger] a[j]).at < (#[trigger] a[k]).at
            &&& forall|i: int| 0 <= i < n && is_add_at(f, t, i)
                ==> exists|j: int| 0 <= j < a.len() && (#[trigger] a[j]).at == i
        }),
    decreases n,
{
    if n > 0 {
        lemma_adds_facts(f, t, n - 1);
        let prev = adds_upto(f, t, n - 1);
        let a = adds_upto(f, t, n);
        if is_add_at(f, t, n - 1) {
            assert(a[a.len() - 1].at == n - 1);
            assert forall|i: int| 0 <= i < n && is_add_at(f, t, i)
                implies exists|j: int| 0 <= j < a.len() && (#[trigger] a[j]).at == i by {
                if i < n - 1 {
                    let j = choose|j: int| 0 <= j < prev.len() && (#[trigger] prev[j]).at == i;
                    assert(a[j].at == i);
                } else {
                    assert(a[a.len() - 1].at == i);
                }
            }
        } else {
            assert forall|i: int| 0 <= i < n && is_add_at(f, t, i)
                implies exists|j: int| 0 <= j < a.len() && (#[trigger] a[j]).at == i by {
                let j = choose|j: int| 0 <= j < prev.len() && (#[trigger] prev[j]).at == i;
                assert(a[j].at == i);
            }
        }
    }
}

/// The unit-move list holds exactly the scan's move operations of the old
/// positions whose key survives displaced, in ascending source order.
pub proof fn lemma_moves_facts(f: Seq<u64>, t: Seq<u64>, n: int)
    requires
        n <= usize::MAX,
    ensures
        ({
            let u = unit_moves_upto(f, t, n);
            &&& forall|j: int| 0 <= j < u.len() ==> (#[trigger] u[j]).from < n
                && is_move_at(f, t, u[j].from as int) && u[j] == move_op_at(f, t, u[j].from as int)
            &&& forall|j: int, k: int| 0 <= j < k < u.len()
                ==> (#[trigger] u[j]).from < (#[trigger] u[k]).from
            &&& forall|i: int| 0 <= i < n && is_move_at(f, t, i)
                ==> exists|j: int| 0 <= j < u.len() && (#[trigger] u[j]).from == i
        }),
    decreases n,
{
    if n > 0 {
        lemma_moves_facts(f, t, n - 1);
        let prev = unit_moves_upto(f, t, n - 1);
        let u = unit_moves_upto(f, t, n);
        if is_move_at(f, t, n - 1) {
            assert(u[u.len() - 1] == move_op_at(f, t, n - 1));
            assert forall|i: int| 0 <= i < n && is_move_at(f, t, i)
                implies exists|j: int| 0 <= j < u.len() && (#[trigger] u[j]).from == i by {
                if i < n - 1 {
                    let j = choose|j: int| 0 <= j < prev.len() && (#[trigger] prev[j]).from == i;
                    assert(u[j].from == i);
                } else {
                    assert(u[u.len() - 1].from == i);
                }
            }
        } else {
            assert forall|i: int| 0 <= i < n && is_move_at(f, t, i)
                implies exists|j: int| 0 <= j < u.len() && (#[trigger] u[j]).from == i by {
                let j = choose|j: int| 0 <= j < prev.len() && (#[trigger] prev[j]).from == i;
                assert(u[j].from == i);
            }
        }
    }
}

/// Past the end of the new order the scan emits no further addition.
pub proof fn lemma_adds_stable(f: Seq<u64>, t: Seq<u64>, n: int)
    requires
        n >= t.len(),
    ensures
        adds_upto(f, t, n) == adds_upto(f, t, t.len() as int),
    decreases n,
{
    if n > t.len() {
        assert(!is_add_at(f, t, n - 1));
        lemma_adds_stable(f, t, n - 1);
    }
}

/// The set of old positions whose key occurs among the first `n` new ones.
pub open spec fn shared_positions(f: Seq<u64>, t: Seq<u64>, n: int) -> Set<int> {
    Set::new(|p: int| 0 <= p < f.len() && exists|j: int| 0 <= j < n && t[j] == f[p])
}

/// Every new position holds either an added key or a key the old order
/// already had, so the new order is never longer than the old order plus
/// the additions.
pub proof fn lemma_target_len_bound(f: Seq<u64>, t: Seq<u64>, n: int)
    requires
        f.no_duplicates(),
        t.no_duplicates(),
        0 <= n <= t.len(),
    ensures
        shared_positions(f, t, n).finite(),
        shared_positions(f, t, n).len() == n - adds_upto(f, t, n).len(),
        n - adds_upto(f, t, n).len() <= f.len(),
    decreases n,
{
    vstd::set_lib::lemma_int_range(0, f.len() as int);
    assert(shared_positions(f, t, n).subset_of(vstd::set_lib::set_int_range(0, f.len() as int)));
    if n == 0 {
        assert(shared_positions(f, t, 0) =~= Set::<int>::empty());
    } else {
        lemma_target_len_bound(f, t, n - 1);
        let prev = shared_positions(f, t, n - 1);
        let cur = shared_positions(f, t, n);
        if is_add_at(f, t, n - 1) {
            assert forall|p: int| cur.contains(p) implies prev.contains(p) by {
                let j = choose|j: int| 0 <= j < n && t[j] == f[p];
                assert(j < n - 1);
            }
            assert(cur =~= prev);
        } else {
            assert(f.contains(t[n - 1]));
            let p0 = f.index_of(t[n - 1]);
            assert(0 <= p0 < f.len() && f[p0] == t[n - 1]);
            assert(!prev.contains(p0));
            assert forall|p: int| cur.contains(p) implies prev.insert(p0).contains(p) by {
                let j = choose|j: int| 0 <= j < n && t[j] == f[p];
                if j == n - 1 {
                    lemma_index_of_distinct(f, t[n - 1], p);
                }
            }
            assert(cur =~= prev.insert(p0));
        }
        vstd::set_lib::lemma_len_subset(cur, vstd::set_lib::set_int_range(0, f.len() as int));
    }
}

/// Grouping keeps every group inside the bounds its unit moves came from.
pub proof fn lemma_group_bounds(us: Seq<DiffOpMove>, src_len: int, dst_len: int)
    requires
        us.len() <= usize::MAX,
        forall|j: int| 0 <= j < us.len() ==> {
            &&& (#[trigger] us[j]).len == 1
            &&& us[j].from + 1 <= src_len
            &&& us[j].to + 1 <= dst_len
        },
        src_len <= usize::MAX,
        dst_len <= usize::MAX,
    ensures
        ({
            let g = group_moves(us);
            forall|j: int| 0 <= j < g.len() ==> {
                &&& (#[trigger] g[j]).len >= 1
                &&& g[j].from + g[j].len <= src_len
                &&& g[j].to + g[j].len <= dst_len
            }
        }),
    decreases us.len(),
{
    if us.len() > 0 {
        let prefix = us.drop_last();
        lemma_group_bounds(prefix, src_len, dst_len);
        lemma_group_total(prefix);
        let acc = group_moves(prefix);
        let m = us.last();
        assert(m == us[us.len() - 1]);
        let g = group_moves(us);
        if acc.len() > 0 && merges_with(acc.last(), m) {
            lemma_total_nonneg(acc.drop_last());
            assert(total_move_len(acc) == total_move_len(acc.drop_last()) + acc.last().len);
            assert(acc.last().len + 1 <= usize::MAX);
            assert forall|j: int| 0 <= j < g.len() implies {
                &&& (#[trigger] g[j]).len >= 1
                &&& g[j].from + g[j].len <= src_len
                &&& g[j].to + g[j].len <= dst_len
            } by {
                if j < g.len() - 1 {
                    assert(g[j] == acc[j]);
                } else {
                    assert(g[j].from == acc.last().from && g[j].len == acc.last().len + 1);
                    assert(m.from == acc.last().from + acc.last().len);
                }
            }
        } else {
            assert(g == acc.push(m));
            assert forall|j: int| 0 <= j < g.len() implies {
                &&& (#[trigger] g[j]).len >= 1
                &&& g[j].from + g[j].len <= src_len
                &&& g[j].to + g[j].len <= dst_len
            } by {
                if j < g.len() - 1 {
                    assert(g[j] == acc[j]);
                } else {
                    assert(g[j] == m);
                }
            }
        }
    }
}

} // verus!
