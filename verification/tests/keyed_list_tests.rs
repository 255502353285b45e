use keyed_list::apply::TreeOp;
use keyed_list::diffing::{diff, group_adjacent_moves};
use keyed_list::index_set::{key_set_from_keys, FxIndexSet};
use keyed_list::keyed::{keyed, KeyedState, SerializableKey};
use keyed_list::ops::{Diff, DiffOpAdd, DiffOpAddMode, DiffOpMove, DiffOpRemove};
use keyed_list::stable_id::{span_to_stable_id, MacroInvocation};
use keyed_list::unpack::unpack_moves;

fn key_set(keys: &[u64]) -> FxIndexSet {
    key_set_from_keys(&keys.to_vec())
}

/// A model live tree: the mounted children in tree order.  Performing the
/// reconciler's instructions keeps it aligned with the retained state, as
/// the real runtime would.
fn perform(tree: &mut Vec<u64>, ops: &[TreeOp<u64>]) {
    for op in ops {
        match op {
            TreeOp::Unmount { child } => {
                tree.retain(|c| c != child);
            }
            TreeOp::InsertBefore { child, sibling } => {
                tree.retain(|c| c != child);
                let pos = tree
                    .iter()
                    .position(|c| c == sibling)
                    .expect("sibling must be mounted");
                tree.insert(pos, *child);
            }
            TreeOp::InsertBeforeMarker { child } => {
                tree.retain(|c| c != child);
                tree.push(*child);
            }
            TreeOp::SetIndex { .. } => {}
        }
    }
}

fn build_mounted(keys: &[u64]) -> (KeyedState<u64>, Vec<u64>) {
    let list = keyed(keys.to_vec(), |k: &u64| *k, |_i: usize, k: &u64| *k);
    let mut state = list.build();
    let tree = state.elements();
    state.mounted = true;
    (state, tree)
}

fn rebuild_mounted(state: &mut KeyedState<u64>, tree: &mut Vec<u64>, keys: &[u64]) {
    let list = keyed(keys.to_vec(), |k: &u64| *k, |_i: usize, k: &u64| *k);
    let ops = list.rebuild(state);
    perform(tree, &ops);
}

#[test]
fn growing_at_the_tail_adds_in_place() {
    let d = diff(&key_set(&[1, 2, 3]), &key_set(&[1, 2, 3, 4, 5]));
    assert!(!d.clear);
    assert!(d.removed.is_empty());
    assert!(d.moved.is_empty());
    assert_eq!(d.items_to_move, 0);
    assert_eq!(
        d.added,
        vec![
            DiffOpAdd { at: 3, mode: DiffOpAddMode::Normal },
            DiffOpAdd { at: 4, mode: DiffOpAddMode::Normal },
        ]
    );
}

#[test]
fn shrinking_at_the_tail_removes() {
    let d = diff(&key_set(&[1, 2, 3]), &key_set(&[1, 2]));
    assert!(!d.clear);
    assert_eq!(d.removed, vec![DiffOpRemove { at: 2 }]);
    assert!(d.moved.is_empty());
    assert!(d.added.is_empty());
}

#[test]
fn swap_yields_two_real_moves() {
    let d = diff(&key_set(&[1, 2, 3, 4, 5]), &key_set(&[1, 4, 3, 2, 5]));
    assert!(!d.clear);
    assert!(d.removed.is_empty());
    assert!(d.added.is_empty());
    assert_eq!(
        d.moved,
        vec![
            DiffOpMove { from: 1, len: 1, to: 3, move_in_dom: true },
            DiffOpMove { from: 3, len: 1, to: 1, move_in_dom: true },
        ]
    );
    assert_eq!(d.items_to_move, 2);
}

#[test]
fn emptying_clears_wholesale() {
    let d = diff(&key_set(&[1, 2, 3, 4, 5]), &key_set(&[]));
    assert!(d.clear);
    assert!(d.removed.is_empty());
    assert!(d.moved.is_empty());
    assert!(d.added.is_empty());
}

#[test]
fn filling_from_empty_appends_every_key() {
    let d = diff(&key_set(&[]), &key_set(&[1, 2, 3]));
    assert!(!d.clear);
    assert!(d.removed.is_empty());
    assert!(d.moved.is_empty());
    assert_eq!(
        d.added,
        vec![
            DiffOpAdd { at: 0, mode: DiffOpAddMode::Append },
            DiffOpAdd { at: 1, mode: DiffOpAddMode::Append },
            DiffOpAdd { at: 2, mode: DiffOpAddMode::Append },
        ]
    );
}

#[test]
fn diffing_an_order_against_itself_is_empty() {
    let d = diff(&key_set(&[4, 7, 19]), &key_set(&[4, 7, 19]));
    assert!(!d.clear);
    assert!(d.removed.is_empty());
    assert!(d.moved.is_empty());
    assert!(d.added.is_empty());
    assert_eq!(d.items_to_move, 0);
}

#[test]
fn absorbed_shift_is_bookkeeping_only() {
    // Two keys survive shifted by one, behind one addition: the surplus
    // absorbs the shift, so neither move needs a tree mutation.
    let d = diff(&key_set(&[1, 2]), &key_set(&[9, 1, 2]));
    assert_eq!(d.added, vec![DiffOpAdd { at: 0, mode: DiffOpAddMode::Normal }]);
    assert_eq!(
        d.moved,
        vec![DiffOpMove { from: 0, len: 2, to: 1, move_in_dom: false }]
    );
    assert_eq!(d.items_to_move, 2);
}

#[test]
fn adjacent_moves_group_into_ranges() {
    // From [2,3,5,6] to [1,2,3,4,5,6]: the units 2,3 and 5,6 each become
    // one ranged move.
    let d = diff(&key_set(&[2, 3, 5, 6]), &key_set(&[1, 2, 3, 4, 5, 6]));
    assert_eq!(
        d.moved,
        vec![
            DiffOpMove { from: 0, len: 2, to: 1, move_in_dom: false },
            DiffOpMove { from: 2, len: 2, to: 4, move_in_dom: true },
        ]
    );
    assert_eq!(d.items_to_move, 4);
}

#[test]
fn grouping_merges_only_contiguous_ranges() {
    let moved = vec![
        DiffOpMove { from: 0, len: 1, to: 1, move_in_dom: true },
        DiffOpMove { from: 1, len: 1, to: 2, move_in_dom: false },
        DiffOpMove { from: 5, len: 1, to: 6, move_in_dom: true },
    ];
    let grouped = group_adjacent_moves(moved);
    assert_eq!(
        grouped,
        vec![
            DiffOpMove { from: 0, len: 2, to: 1, move_in_dom: true },
            DiffOpMove { from: 5, len: 1, to: 6, move_in_dom: true },
        ]
    );
}

#[test]
fn unpacking_restores_unit_steps_in_order() {
    let diff = Diff {
        removed: vec![DiffOpRemove { at: 0 }],
        moved: vec![DiffOpMove { from: 1, len: 2, to: 0, move_in_dom: false }],
        items_to_move: 2,
        added: vec![DiffOpAdd { at: 2, mode: DiffOpAddMode::Normal }],
        clear: false,
    };
    let (moves, adds) = unpack_moves(&diff);
    assert_eq!(
        moves,
        vec![
            DiffOpMove { from: 1, len: 1, to: 0, move_in_dom: false },
            DiffOpMove { from: 2, len: 1, to: 1, move_in_dom: false },
        ]
    );
    assert_eq!(adds, vec![DiffOpAdd { at: 2, mode: DiffOpAddMode::Normal }]);
}

#[test]
fn building_keeps_order_and_children() {
    let (state, tree) = build_mounted(&[10, 20, 30]);
    assert_eq!(state.keys(), vec![10, 20, 30]);
    assert_eq!(state.elements(), vec![10, 20, 30]);
    assert_eq!(tree, vec![10, 20, 30]);
}

#[test]
fn rebuild_reaches_new_order_after_swap() {
    let (mut state, mut tree) = build_mounted(&[1, 2, 3, 4, 5]);
    rebuild_mounted(&mut state, &mut tree, &[1, 4, 3, 2, 5]);
    assert_eq!(state.keys(), vec![1, 4, 3, 2, 5]);
    assert_eq!(state.elements(), vec![1, 4, 3, 2, 5]);
    assert_eq!(tree, vec![1, 4, 3, 2, 5]);
}

#[test]
fn rebuild_swaps_and_removes_in_one_pass() {
    let (mut state, mut tree) = build_mounted(&[1, 2, 3, 4, 5]);
    rebuild_mounted(&mut state, &mut tree, &[1, 4, 3, 5]);
    assert_eq!(state.keys(), vec![1, 4, 3, 5]);
    assert_eq!(state.elements(), vec![1, 4, 3, 5]);
    assert_eq!(tree, vec![1, 4, 3, 5]);
}

#[test]
fn rebuild_handles_arbitrarily_hard_adjustment() {
    let (mut state, mut tree) = build_mounted(&[1, 2, 3, 4, 5]);
    rebuild_mounted(&mut state, &mut tree, &[2, 4, 3]);
    assert_eq!(state.keys(), vec![2, 4, 3]);
    assert_eq!(state.elements(), vec![2, 4, 3]);
    assert_eq!(tree, vec![2, 4, 3]);
}

#[test]
fn rebuild_converges_over_a_series_of_moves() {
    let (mut state, mut tree) = build_mounted(&[1, 2, 3, 4, 5]);
    let updates: [&[u64]; 5] = [
        &[2, 4, 3],
        &[1, 7, 5, 11, 13, 17],
        &[2, 6, 8, 7, 13],
        &[13, 4, 5, 3],
        &[1, 2, 3, 4],
    ];
    for update in updates {
        rebuild_mounted(&mut state, &mut tree, update);
        assert_eq!(state.keys(), update.to_vec());
        assert_eq!(state.elements(), update.to_vec());
        assert_eq!(tree, update.to_vec());
    }
}

#[test]
fn clearing_unmounts_everything() {
    let (mut state, mut tree) = build_mounted(&[1, 2, 3, 4, 5]);
    rebuild_mounted(&mut state, &mut tree, &[]);
    assert_eq!(state.keys(), Vec::<u64>::new());
    assert_eq!(state.elements(), Vec::<u64>::new());
    assert_eq!(tree, Vec::<u64>::new());
}

#[test]
fn refilling_after_a_clear_appends() {
    let (mut state, mut tree) = build_mounted(&[1, 2, 3]);
    rebuild_mounted(&mut state, &mut tree, &[]);
    rebuild_mounted(&mut state, &mut tree, &[7, 8]);
    assert_eq!(state.keys(), vec![7, 8]);
    assert_eq!(tree, vec![7, 8]);
}

#[test]
fn unmounted_rebuild_touches_no_tree() {
    let list = keyed(vec![1u64, 2, 3], |k: &u64| *k, |_i: usize, k: &u64| *k);
    let mut state = list.build();
    assert!(!state.mounted);
    let next = keyed(vec![3u64, 1], |k: &u64| *k, |_i: usize, k: &u64| *k);
    let ops = next.rebuild(&mut state);
    for op in &ops {
        assert!(!matches!(op, TreeOp::InsertBefore { .. }));
        assert!(!matches!(op, TreeOp::InsertBeforeMarker { .. }));
    }
    assert_eq!(state.keys(), vec![3, 1]);
    assert_eq!(state.elements(), vec![3, 1]);
}

#[test]
fn duplicate_keys_collapse_to_first_occurrence() {
    let list = keyed(vec![1u64, 2, 1, 3, 2], |k: &u64| *k, |_i: usize, k: &u64| *k);
    let state = list.build();
    assert_eq!(state.keys(), vec![1, 2, 3]);
    assert_eq!(state.elements(), vec![1, 2, 3]);
}

#[test]
fn duplicate_keys_collapse_within_a_rebuild() {
    let (mut state, mut tree) = build_mounted(&[1, 2]);
    rebuild_mounted(&mut state, &mut tree, &[3, 2, 3, 1, 1]);
    assert_eq!(state.keys(), vec![3, 2, 1]);
    assert_eq!(state.elements(), vec![3, 2, 1]);
    assert_eq!(tree, vec![3, 2, 1]);
}

#[test]
fn identity_survives_across_updates() {
    // Children are built from the item's value at build time; a key that
    // survives keeps its original child even after moves.
    let first = keyed(vec![1u64, 2, 3], |k: &u64| *k, |_i: usize, k: &u64| *k * 100);
    let mut state = first.build();
    assert_eq!(state.elements(), vec![100, 200, 300]);
    // The new view derivation is different, but only the added key uses it.
    let second = keyed(vec![3u64, 4, 1], |k: &u64| *k, |_i: usize, k: &u64| *k * 1000);
    let _ = second.rebuild(&mut state);
    assert_eq!(state.keys(), vec![3, 4, 1]);
    assert_eq!(state.elements(), vec![300, 4000, 100]);
}

#[test]
fn unmount_lists_every_child_in_order() {
    let (state, _tree) = build_mounted(&[5, 6]);
    let ops = state.unmount();
    assert_eq!(
        ops,
        vec![TreeOp::Unmount { child: 5 }, TreeOp::Unmount { child: 6 }]
    );
}

#[test]
fn long_shuffled_updates_converge() {
    let (mut state, mut tree) = build_mounted(&[0, 1, 2, 3, 4, 5, 6, 7]);
    let updates: [&[u64]; 6] = [
        &[7, 6, 5, 4, 3, 2, 1, 0],
        &[0, 2, 4, 6, 8, 10],
        &[10, 0, 9, 2, 8, 4],
        &[1, 2, 3],
        &[3, 2, 1, 0, 4, 5, 6, 7, 8, 9],
        &[9, 0, 3, 5, 7, 2],
    ];
    for update in updates {
        rebuild_mounted(&mut state, &mut tree, update);
        assert_eq!(state.keys(), update.to_vec());
        assert_eq!(state.elements(), update.to_vec());
        assert_eq!(tree, update.to_vec());
    }
}

#[test]
fn u64_keys_serialize_to_decimal() {
    assert_eq!(5u64.ser_key(), "5");
    assert_eq!(0u64.ser_key(), "0");
    assert_eq!(1234567890u64.ser_key(), "1234567890");
}

#[test]
fn stable_id_flattens_separators_and_appends_line() {
    assert_eq!(
        span_to_stable_id("src/components/app.rs", 42),
        "src-components-app.rs-42"
    );
    assert_eq!(
        span_to_stable_id("src\\widgets\\list.rs", 7),
        "src-widgets-list.rs-7"
    );
    assert_eq!(span_to_stable_id("", 0), "-0");
}

#[test]
fn macro_invocation_keeps_its_parts() {
    let inv = MacroInvocation::new("lib.rs-3".to_string(), "<p>hi</p>".to_string());
    assert_eq!(inv.id, "lib.rs-3");
    assert_eq!(inv.template, "<p>hi</p>");
    let copy = inv.clone();
    assert_eq!(copy, inv);
}

#[test]
fn streaming_emits_fragments_then_marker() {
    let list = keyed(vec![1u64, 2], |k: &u64| *k, |_i: usize, k: &u64| *k);
    let mut buf = String::new();
    list.to_html_with_buf(&mut buf, |_i: usize, k: &u64| format!("<li>{k}</li>"));
    assert_eq!(buf, "<li>1</li><li>2</li><!>");
}

#[test]
fn streaming_an_empty_list_emits_only_the_marker() {
    let list = keyed(Vec::<u64>::new(), |k: &u64| *k, |_i: usize, k: &u64| *k);
    let mut buf = String::from("head:");
    list.to_html_with_buf(&mut buf, |i: usize, _k: &u64| format!("{i}"));
    assert_eq!(buf, "head:<!>");
}

#[test]
fn key_index_keeps_first_occurrences_only() {
    let s = key_set_from_keys(&vec![5, 3, 5, 9, 3, 5]);
    let keys: Vec<u64> = s.iter().copied().collect();
    assert_eq!(keys, vec![5, 3, 9]);
}

/// A small deterministic pseudo-random generator, so the shuffled-update
/// stress below is reproducible.
struct Lcg(u64);

impl Lcg {
    fn next(&mut self) -> u64 {
        self.0 = self.0.wrapping_mul(6364136223846793005).wrapping_add(1442695040888963407);
        self.0 >> 33
    }
}

#[test]
fn randomized_update_sequences_converge() {
    let mut rng = Lcg(0x5eed);
    for _round in 0..20 {
        let (mut state, mut tree) = build_mounted(&[]);
        for _pass in 0..12 {
            // Draw a fresh key order: a random subset of a small key
            // space, shuffled, sometimes empty.
            let len = (rng.next() % 13) as usize;
            let mut update: Vec<u64> = Vec::new();
            for _ in 0..len {
                let k = rng.next() % 16;
                if !update.contains(&k) {
                    update.push(k);
                }
            }
            rebuild_mounted(&mut state, &mut tree, &update);
            assert_eq!(state.keys(), update);
            assert_eq!(state.elements(), update);
            assert_eq!(tree, update);
        }
    }
}
