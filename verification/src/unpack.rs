//! The unpacker: re-expands grouped moves into unit steps while walking the
//! execution positions in ascending order, interleaved with additions and
//! the positions already vacated by removals.  Downstream application
//! consumes the unit moves and the additions each in this order.

use vstd::prelude::*;
use crate::diffing::total_move_len;
use crate::ops::{Diff, DiffOpAdd, DiffOpMove};

verus! {

/// One ranged move re-expanded into its unit steps: the `k`-th step takes
/// the item at `from + k` to `to + k`, and keeps the range's tree-mutation
/// flag.
pub open spec fn expand_one(m: DiffOpMove) -> Seq<DiffOpMove> {
    Seq::new(
        m.len as nat,
        |k: int| DiffOpMove {
            from: (m.from + k) as usize,
            len: 1,
            to: (m.to + k) as usize,
            move_in_dom: m.move_in_dom,
        },
    )
}

/// A move list re-expanded into unit steps, in order.
pub open spec fn expand_moves(ms: Seq<DiffOpMove>) -> Seq<DiffOpMove>
    decreases ms.len(),
{
    if ms.len() == 0 {
        Seq::empty()
    } else {
        expand_moves(ms.drop_last()) + expand_one(ms.last())
    }
}

/// Expansion emits exactly as many unit steps as there are items to move.
pub proof fn lemma_expand_len(ms: Seq<DiffOpMove>)
    ensures
        expand_moves(ms).len() == total_move_len(ms),
    decreases ms.len(),
{
    if ms.len() > 0 {
        lemma_expand_len(ms.drop_last());
    }
}

/// A prefix of the groups, then one more group, expand to the expansion of
/// the prefix followed by that group's unit steps.
pub proof fn lemma_expand_step(ms: Seq<DiffOpMove>, n: int)
    requires
        0 <= n < ms.len(),
    ensures
        expand_moves(ms.take(n + 1)) == expand_moves(ms.take(n)) + expand_one(ms[n]),
{
    assert(ms.take(n + 1).drop_last() =~= ms.take(n));
    assert(ms.take(n + 1).last() == ms[n]);
}

/// Grouping unit moves and re-expanding the groups yields unit steps with
/// the original sources and destinations, in the original order.  Only the
/// tree-mutation flag can differ: a group carries its first unit's flag.
pub proof fn lemma_expand_group(us: Seq<DiffOpMove>)
    requires
        us.len() <= usize::MAX,
        forall|j: int| 0 <= j < us.len() ==> {
            &&& (#[trigger] us[j]).len == 1
            &&& us[j].from + 1 <= usize::MAX
            &&& us[j].to + 1 <= usize::MAX
        },
    ensures
        ({
            let ex = expand_moves(crate::diffing::group_moves(us));
            &&& ex.len() == us.len()
            &&& forall|j: int| 0 <= j < ex.len() ==> {
                &&& (#[trigger] ex[j]).from == us[j].from
                &&& ex[j].to == us[j].to
                &&& ex[j].len == 1
            }
        }),
    decreases us.len(),
{
    if us.len() > 0 {
        let prefix = us.drop_last();
        let m = us.last();
        assert(m == us[us.len() - 1]);
        lemma_expand_group(prefix);
        crate::diffing::lemma_group_total(prefix);
        let acc = crate::diffing::group_moves(prefix);
        let expre = expand_moves(acc);
        let g = crate::diffing::group_moves(us);
        let ex = expand_moves(g);
        if acc.len() > 0 && crate::diffing::merges_with(acc.last(), m) {
            let p = acc.last();
            crate::diffing::lemma_total_nonneg(acc.drop_last());
            assert(total_move_len(acc) == total_move_len(acc.drop_last()) + p.len);
            assert(p.len + 1 <= usize::MAX);
            let ext = DiffOpMove {
                from: p.from,
                len: (p.len + 1) as usize,
                to: p.to,
                move_in_dom: p.move_in_dom,
            };
            assert(g == acc.update(acc.len() - 1, ext));
            assert(g.drop_last() =~= acc.drop_last());
            assert(g.last() == ext);
            let unit = DiffOpMove {
                from: (p.from + p.len) as usize,
                len: 1,
                to: (p.to + p.len) as usize,
                move_in_dom: p.move_in_dom,
            };
            assert(expand_one(ext) =~= expand_one(p).push(unit));
            assert(expre == expand_moves(acc.drop_last()) + expand_one(p));
            assert(ex == expand_moves(acc.drop_last()) + expand_one(ext));
            assert(ex =~= expre.push(unit));
            assert(unit.from == m.from && unit.to == m.to);
            assert forall|j: int| 0 <= j < ex.len() implies {
                &&& (#[trigger] ex[j]).from == us[j].from
                &&& ex[j].to == us[j].to
                &&& ex[j].len == 1
            } by {
                if j < expre.len() {
                    assert(ex[j] == expre[j]);
                    assert(prefix[j] == us[j]);
                } else {
                    assert(ex[j] == unit);
                }
            }
        } else {
            assert(g == acc.push(m));
            assert(g.drop_last() =~= acc);
            assert(g.last() == m);
            assert(ex == expand_moves(acc) + expand_one(m));
            let unit = DiffOpMove { from: m.from, len: 1, to: m.to, move_in_dom: m.move_in_dom };
            assert(expand_one(m) =~= seq![unit]);
            assert(ex =~= expre.push(unit));
            assert forall|j: int| 0 <= j < ex.len() implies {
                &&& (#[trigger] ex[j]).from == us[j].from
                &&& ex[j].to == us[j].to
                &&& ex[j].len == 1
            } by {
                if j < expre.len() {
                    assert(ex[j] == expre[j]);
                    assert(prefix[j] == us[j]);
                } else {
                    assert(ex[j] == unit);
                }
            }
        }
    }
}

/// A group not yet retired bounds the emitted unit steps strictly below
/// the total.
pub proof fn lemma_total_rest(ms: Seq<DiffOpMove>, n: int)
    requires
        0 <= n < ms.len(),
    ensures
        total_move_len(ms) >= total_move_len(ms.take(n)) + ms[n].len,
    decreases ms.len(),
{
    if n == ms.len() - 1 {
        assert(ms.take(n) =~= ms.drop_last());
    } else {
        lemma_total_rest(ms.drop_last(), n);
        assert(ms.drop_last().take(n) =~= ms.take(n));
        assert(ms.drop_last()[n] == ms[n]);
    }
}

/// Re-expands the grouped moves of a diff into unit steps and pairs them
/// with the diff's additions: a single walk over the execution positions
/// skips each position a removal has vacated and otherwise emits the
/// addition due at the position, or else one unit of the current move
/// range, retiring ranges as they exhaust.  Every unit step and every
/// addition comes out, each list in its original order.
pub fn unpack_moves(diff: &Diff) -> (r: (Vec<DiffOpMove>, Vec<DiffOpAdd>))
    requires
        total_move_len(diff.moved@) == diff.items_to_move,
        forall|j: int| 0 <= j < diff.moved@.len() ==> {
            &&& (#[trigger] diff.moved@[j]).len >= 1
            &&& diff.moved@[j].from + diff.moved@[j].len <= usize::MAX
            &&& diff.moved@[j].to + diff.moved@[j].len <= usize::MAX
        },
        diff.items_to_move + diff.added@.len() + diff.removed@.len() <= usize::MAX,
    ensures
        r.0@ == expand_moves(diff.moved@),
        r.1@ == diff.added@,
{
    let n_moved = diff.moved.len();
    let n_added = diff.added.len();
    let n_removed = diff.removed.len();
    let total = diff.items_to_move + n_added + n_removed;

    let mut moves: Vec<DiffOpMove> = Vec::with_capacity(diff.items_to_move);
    let mut adds: Vec<DiffOpAdd> = Vec::with_capacity(n_added);

    let mut r_idx: usize = 0;
    let mut a_idx: usize = 0;
    let mut m_idx: usize = 0;
    let mut m_off: usize = 0;
    let mut i: usize = 0;

    while i < total && (a_idx < n_added || m_idx < n_moved)
        invariant
            n_moved == diff.moved@.len(),
            n_added == diff.added@.len(),
            n_removed == diff.removed@.len(),
            total == diff.items_to_move + n_added + n_removed,
            total_move_len(diff.moved@) == diff.items_to_move,
            forall|j: int| 0 <= j < diff.moved@.len() ==> {
                &&& (#[trigger] diff.moved@[j]).len >= 1
                &&& diff.moved@[j].from + diff.moved@[j].len <= usize::MAX
                &&& diff.moved@[j].to + diff.moved@[j].len <= usize::MAX
            },
            r_idx <= n_removed,
            a_idx <= n_added,
            m_idx <= n_moved,
            m_idx < n_moved ==> m_off < diff.moved@[m_idx as int].len,
            m_idx == n_moved ==> m_off == 0,
            adds@ == diff.added@.take(a_idx as int),
            moves@ == if m_idx < n_moved {
                expand_moves(diff.moved@.take(m_idx as int))
                    + expand_one(diff.moved@[m_idx as int]).take(m_off as int)
            } else {
                expand_moves(diff.moved@)
            },
            moves@.len() == total_move_len(diff.moved@.take(m_idx as int)) + m_off,
            i == r_idx + a_idx + moves@.len(),
        decreases total - i,
    {
        let skip = r_idx < n_removed && diff.removed[r_idx].at == i;
        if skip {
            r_idx = r_idx + 1;
        } else {
            let take_add = if a_idx < n_added && m_idx < n_moved {
                diff.added[a_idx].at == i
            } else {
                a_idx < n_added
            };
            if take_add {
                proof {
                    assert(diff.added@.take(a_idx + 1).drop_last() =~= diff.added@.take(
                        a_idx as int));
                }
                adds.push(diff.added[a_idx]);
                a_idx = a_idx + 1;
            } else {
                let cur = diff.moved[m_idx];
                let unit = DiffOpMove {
                    from: cur.from + m_off,
                    len: 1,
                    to: cur.to + m_off,
                    move_in_dom: cur.move_in_dom,
                };
                proof {
                    assert(expand_one(cur).take(m_off + 1)
                        =~= expand_one(cur).take(m_off as int).push(unit));
                    lemma_total_rest(diff.moved@, m_idx as int);
                    lemma_total_move_len_nonneg_prefix(diff.moved@, m_idx as int);
                }
                moves.push(unit);
                if m_off + 1 == cur.len {
                    proof {
                        lemma_expand_step(diff.moved@, m_idx as int);
                        assert(expand_one(cur).take(cur.len as int) =~= expand_one(cur));
                        if m_idx + 1 < n_moved {
                            assert(expand_moves(diff.moved@.take(m_idx + 1))
                                + expand_one(diff.moved@[m_idx + 1]).take(0)
                                =~= expand_moves(diff.moved@.take(m_idx + 1)));
                        } else {
                            assert(diff.moved@.take(m_idx + 1) =~= diff.moved@);
                        }
                        lemma_expand_len(diff.moved@.take(m_idx + 1));
                    }
                    m_idx = m_idx + 1;
                    m_off = 0;
                } else {
                    m_off = m_off + 1;
                }
            }
        }
        i = i + 1;
    }

    proof {
        if a_idx < n_added || m_idx < n_moved {
            // The walk ran out of positions with work left over: the counts
            // rule that out, since each position consumes one removal, one
            // addition or one unit step.
            if m_idx < n_moved {
                lemma_total_rest(diff.moved@, m_idx as int);
                assert(moves@.len() < total_move_len(diff.moved@));
            } else {
                assert(diff.moved@.take(m_idx as int) =~= diff.moved@);
                assert(moves@.len() == total_move_len(diff.moved@));
            }
            assert(i < total);
            assert(false);
        }
        assert(adds@ =~= diff.added@);
        assert(moves@ == expand_moves(diff.moved@));
    }

    (moves, adds)
}

/// The total length of a prefix of the groups is never negative.
proof fn lemma_total_move_len_nonneg_prefix(ms: Seq<DiffOpMove>, n: int)
    requires
        0 <= n <= ms.len(),
    ensures
        total_move_len(ms.take(n)) >= 0,
    decreases n,
{
    if n > 0 {
        lemma_total_move_len_nonneg_prefix(ms, n - 1);
        assert(ms.take(n).drop_last() =~= ms.take(n - 1));
    }
}

} // verus!
