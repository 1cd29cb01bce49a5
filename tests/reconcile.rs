use dyn_stack::apply::apply_diff;
use dyn_stack::detect::generation_diff;
use dyn_stack::diff::{diff, Diff, DiffOpMove, DiffOpRemove};
use dyn_stack::key_set::{collect_keys, KeySet};
use dyn_stack::selection::{navigate, NavKey};

const A: u64 = 10;
const B: u64 = 11;
const C: u64 = 12;
const D: u64 = 13;
const X: u64 = 20;
const Y: u64 = 21;

fn keys(k: &[u64]) -> KeySet {
    collect_keys(&k.to_vec())
}

fn moves(m: &[(usize, usize)]) -> Vec<DiffOpMove> {
    m.iter().map(|&(from, to)| DiffOpMove { from, to }).collect()
}

fn add_positions<V>(d: &Diff<V>) -> Vec<usize> {
    d.added.iter().map(|a| a.at).collect()
}

/// Diffs `from` to `to`, rehydrates with the keys themselves as items, applies
/// the result to slots laid out per `from`, and returns the slots and the
/// children disposed of.
fn reconcile(from: &[u64], to: &[u64]) -> (Vec<Option<u64>>, Vec<u64>) {
    let prev = keys(from);
    let next = keys(to);
    let d = generation_diff(Some(&prev), &next, to.to_vec());
    let mut slots: Vec<Option<u64>> = from.iter().map(|&k| Some(k)).collect();
    let disposed = apply_diff(d, &mut slots);
    (slots, disposed)
}

fn arranged(k: &[u64]) -> Vec<Option<u64>> {
    k.iter().map(|&k| Some(k)).collect()
}

#[test]
fn rotation_moves_every_shifted_key() {
    let d: Diff<u64> = diff(&keys(&[A, B, C]), &keys(&[B, C, A]));
    assert!(d.removed.is_empty());
    assert!(d.added.is_empty());
    assert!(!d.clear);
    assert_eq!(d.moved, moves(&[(1, 0), (2, 1), (0, 2)]));
    assert!(d.moved.contains(&DiffOpMove { from: 0, to: 2 }));
    let (slots, disposed) = reconcile(&[A, B, C], &[B, C, A]);
    assert_eq!(slots, arranged(&[B, C, A]));
    assert!(disposed.is_empty());
}

#[test]
fn removal_in_the_middle() {
    let d: Diff<u64> = diff(&keys(&[A, B, C]), &keys(&[A, C]));
    assert_eq!(d.removed, vec![DiffOpRemove { at: 1 }]);
    assert!(d.added.is_empty());
    assert!(!d.clear);
    assert_eq!(d.moved, moves(&[(2, 1)]));
    let (slots, disposed) = reconcile(&[A, B, C], &[A, C]);
    assert_eq!(slots, arranged(&[A, C]));
    assert_eq!(disposed, vec![B]);
}

#[test]
fn full_replacement_discards_everything() {
    let d: Diff<u64> = diff(&keys(&[A, B]), &keys(&[C, D]));
    assert!(d.clear);
    assert!(d.removed.is_empty());
    assert!(d.moved.is_empty());
    assert_eq!(add_positions(&d), vec![0, 1]);
    let g = generation_diff(Some(&keys(&[A, B])), &keys(&[C, D]), vec![C, D]);
    let items: Vec<(usize, Option<u64>)> = g.added.iter().map(|a| (a.at, a.view)).collect();
    assert_eq!(items, vec![(0, Some(C)), (1, Some(D))]);
    let (slots, disposed) = reconcile(&[A, B], &[C, D]);
    assert_eq!(slots, arranged(&[C, D]));
    assert_eq!(disposed, vec![A, B]);
}

#[test]
fn from_nothing_inserts_in_order() {
    let d: Diff<u64> = diff(&keys(&[]), &keys(&[X, Y]));
    assert!(!d.clear);
    assert!(d.removed.is_empty());
    assert!(d.moved.is_empty());
    assert_eq!(add_positions(&d), vec![0, 1]);
    let g = generation_diff(Some(&keys(&[])), &keys(&[X, Y]), vec![X, Y]);
    let items: Vec<(usize, Option<u64>)> = g.added.iter().map(|a| (a.at, a.view)).collect();
    assert_eq!(items, vec![(0, Some(X)), (1, Some(Y))]);
    let (slots, _) = reconcile(&[], &[X, Y]);
    assert_eq!(slots, arranged(&[X, Y]));
}

#[test]
fn removal_and_move_to_front() {
    let d: Diff<u64> = diff(&keys(&[A, B, C, D]), &keys(&[D, A, B]));
    assert_eq!(d.removed, vec![DiffOpRemove { at: 2 }]);
    assert!(d.added.is_empty());
    assert!(!d.clear);
    assert_eq!(d.moved, moves(&[(3, 0), (0, 1), (1, 2)]));
    let (slots, disposed) = reconcile(&[A, B, C, D], &[D, A, B]);
    assert_eq!(slots, arranged(&[D, A, B]));
    assert_eq!(disposed, vec![C]);
}

#[test]
fn same_generation_gives_empty_diff() {
    let k = keys(&[A, B, C, D]);
    let d: Diff<u64> = diff(&k, &k);
    assert!(d.is_empty());
    let e: Diff<u64> = diff(&keys(&[]), &keys(&[]));
    assert!(e.is_empty());
}

#[test]
fn to_nothing_sets_only_the_discard_flag() {
    let d: Diff<u64> = diff(&keys(&[A, B, C]), &keys(&[]));
    assert!(d.clear);
    assert!(d.removed.is_empty());
    assert!(d.moved.is_empty());
    assert!(d.added.is_empty());
    assert!(!d.is_empty());
    let (slots, disposed) = reconcile(&[A, B, C], &[]);
    assert!(slots.is_empty());
    assert_eq!(disposed, vec![A, B, C]);
}

#[test]
fn in_place_key_after_insert_and_removal_is_not_moved() {
    // X replaces A at index 0; B stays at index 1 and is not moved.
    let d: Diff<u64> = diff(&keys(&[A, B]), &keys(&[X, B]));
    assert_eq!(d.removed, vec![DiffOpRemove { at: 0 }]);
    assert_eq!(add_positions(&d), vec![0]);
    assert!(d.moved.is_empty());
    assert!(!d.clear);
    let (slots, disposed) = reconcile(&[A, B], &[X, B]);
    assert_eq!(slots, arranged(&[X, B]));
    assert_eq!(disposed, vec![A]);
}

#[test]
fn insert_before_survivor_moves_it() {
    let d: Diff<u64> = diff(&keys(&[A]), &keys(&[X, A]));
    assert!(d.removed.is_empty());
    assert_eq!(add_positions(&d), vec![0]);
    assert_eq!(d.moved, moves(&[(0, 1)]));
    let (slots, _) = reconcile(&[A], &[X, A]);
    assert_eq!(slots, arranged(&[X, A]));
}

#[test]
fn mixed_edits_reach_the_new_order() {
    let from = [A, B, C, D, X];
    let to = [Y, D, B, X, A];
    let (slots, disposed) = reconcile(&from, &to);
    assert_eq!(slots, arranged(&to));
    assert_eq!(disposed, vec![C]);
}

#[test]
fn moves_never_read_removed_slots() {
    let d: Diff<u64> = diff(&keys(&[A, B, C, D, X]), &keys(&[X, A, D]));
    for m in &d.moved {
        assert!(d.removed.iter().all(|r| r.at != m.from));
    }
    assert_eq!(d.removed, vec![DiffOpRemove { at: 1 }, DiffOpRemove { at: 2 }]);
}

#[test]
fn first_evaluation_inserts_everything() {
    let g = generation_diff(None, &keys(&[A, B, C]), vec![A, B, C]);
    assert!(!g.clear);
    assert!(g.removed.is_empty());
    assert!(g.moved.is_empty());
    let items: Vec<(usize, Option<u64>)> = g.added.iter().map(|a| (a.at, a.view)).collect();
    assert_eq!(items, vec![(0, Some(A)), (1, Some(B)), (2, Some(C))]);
}

#[test]
fn collect_keys_keeps_first_occurrences() {
    let k = collect_keys(&vec![3, 1, 3, 2, 1]);
    let v: Vec<u64> = k.iter().copied().collect();
    assert_eq!(v, vec![3, 1, 2]);
    assert_eq!(k.get_index_of(&2), Some(2));
}

#[test]
fn removing_an_empty_slot_is_a_no_op() {
    let d: Diff<u64> = Diff {
        removed: vec![DiffOpRemove { at: 1 }, DiffOpRemove { at: 1 }],
        moved: Vec::new(),
        added: Vec::new(),
        clear: false,
    };
    let mut slots = vec![Some(A), Some(B), Some(C)];
    let disposed = apply_diff(d, &mut slots);
    assert_eq!(disposed, vec![B]);
    assert_eq!(slots, arranged(&[A, C]));
}

#[test]
fn default_diff_is_empty() {
    let d: Diff<u64> = Diff::default();
    assert!(d.is_empty());
}

#[test]
fn keyboard_navigation_moves_the_selection() {
    assert_eq!(navigate(NavKey::Home, None, 3).select, Some(0));
    assert_eq!(navigate(NavKey::End, Some(0), 3).select, Some(2));
    assert_eq!(navigate(NavKey::End, None, 0).select, None);
    assert!(navigate(NavKey::End, None, 0).handled);
    assert_eq!(navigate(NavKey::ArrowUp, Some(2), 3).select, Some(1));
    assert_eq!(navigate(NavKey::ArrowUp, Some(0), 3).select, None);
    assert_eq!(navigate(NavKey::ArrowUp, None, 3).select, Some(2));
    assert_eq!(navigate(NavKey::ArrowDown, Some(1), 3).select, Some(2));
    assert_eq!(navigate(NavKey::ArrowDown, Some(2), 3).select, None);
    assert_eq!(navigate(NavKey::ArrowDown, None, 3).select, Some(0));
    assert_eq!(navigate(NavKey::ArrowDown, Some(0), 0).select, None);
    assert!(!navigate(NavKey::Other, Some(1), 3).handled);
    assert_eq!(navigate(NavKey::Other, Some(1), 3).select, None);
}
