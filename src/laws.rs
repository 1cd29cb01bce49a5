//! Properties of the diff engine and the applier, proved over their models.

use vstd::prelude::*;

use crate::apply::{
    after_removals, applied, disposed_of, edited, grown, put_moved, take_moved, target_len,
};
use crate::detect::{all_inserted, lemma_missing_ascending};
use crate::fold_facts::{
    is_insert_at, is_source, is_target, lemma_compact_prefix, lemma_occupants_prefix,
    lemma_put_added, lemma_put_moved, lemma_remove_slots, lemma_removed_children,
    lemma_take_moved, names_slot,
};
use crate::diff::{
    added_of, adjusted, collapses, count_present, diff_of, empty_shape, lemma_missing_count,
    missing_positions, moved_of, moves_at, removed_of, walk, Diff, DiffShape, WalkState,
};

verus! {

/// The running expected old position at new index `j` of the walk from
/// `from` to `to`, once the cursors at `j` have been consulted.
pub open spec fn expected_position(from: Seq<u64>, to: Seq<u64>, j: nat) -> usize {
    adjusted(
        added_of(from, to),
        removed_of(from, to),
        walk(from, to, added_of(from, to), removed_of(from, to), j),
        j,
    ).0
}

proof fn lemma_missing_members(a: Seq<u64>, b: Seq<u64>, n: nat)
    requires
        n <= a.len(),
        n <= usize::MAX,
    ensures
        forall|i: int|
            0 <= i < n ==> (missing_positions(a, b, n).contains(i as usize) <==> !b.contains(a[i])),
        forall|i: int|
            0 <= i < missing_positions(a, b, n).len() ==> missing_positions(a, b, n)[i] < n,
    decreases n,
{
    lemma_missing_ascending(a, b, n);
    if n > 0 {
        lemma_missing_members(a, b, (n - 1) as nat);
        let prior = missing_positions(a, b, (n - 1) as nat);
        let r = missing_positions(a, b, n);
        assert forall|i: int| 0 <= i < n implies (r.contains(i as usize) <==> !b.contains(a[i])) by {
            if i < n - 1 {
                if r.contains(i as usize) {
                    let k = choose|k: int| 0 <= k < r.len() && r[k] == i as usize;
                    if k < prior.len() {
                        assert(prior[k] == r[k]);
                    }
                }
                if prior.contains(i as usize) {
                    let k = choose|k: int| 0 <= k < prior.len() && prior[k] == i as usize;
                    assert(r[k] == prior[k]);
                }
            } else {
                if !b.contains(a[i]) {
                    assert(r[r.len() - 1] == i as usize);
                } else if r.contains(i as usize) {
                    let k = choose|k: int| 0 <= k < r.len() && r[k] == i as usize;
                    assert(prior[k] < n - 1);
                }
            }
        }
    }
}

proof fn lemma_missing_none(a: Seq<u64>, b: Seq<u64>, n: nat)
    requires
        n <= a.len(),
        forall|i: int| 0 <= i < n ==> b.contains(a[i]),
    ensures
        missing_positions(a, b, n) == Seq::<usize>::empty(),
    decreases n,
{
    if n > 0 {
        lemma_missing_none(a, b, (n - 1) as nat);
    }
}

proof fn lemma_missing_all(a: Seq<u64>, n: nat)
    requires
        n <= a.len(),
        n <= usize::MAX,
    ensures
        missing_positions(a, Seq::<u64>::empty(), n) == Seq::new(n, |i: int| i as usize),
    decreases n,
{
    if n > 0 {
        lemma_missing_all(a, (n - 1) as nat);
        assert(missing_positions(a, Seq::<u64>::empty(), n) =~= Seq::new(n, |i: int| i as usize));
    }
}

/// What the walk emits: each move sits at an index already walked, moves a key
/// present in both generations from its old position, is emitted exactly when
/// `moves_at` holds there, and the moves come in ascending order of target.
pub proof fn lemma_walk_moves(from: Seq<u64>, to: Seq<u64>, m: nat)
    requires
        m <= to.len(),
        to.len() <= usize::MAX,
    ensures
        ({
            let w = walk(from, to, added_of(from, to), removed_of(from, to), m);
            &&& forall|k: int|
                0 <= k < w.moves.len() ==> {
                    let j = #[trigger] w.moves[k].1;
                    &&& j < m
                    &&& moves_at(from, to, j as nat, expected_position(from, to, j as nat))
                    &&& w.moves[k].0 == from.index_of(to[j as int]) as usize
                }
            &&& forall|k1: int, k2: int|
                0 <= k1 < k2 < w.moves.len() ==> w.moves[k1].1 < w.moves[k2].1
            &&& forall|j: nat|
                j < m && moves_at(from, to, j, expected_position(from, to, j)) ==> exists|k: int|
                    0 <= k < w.moves.len() && w.moves[k].1 == j
        }),
    decreases m,
{
    if m > 0 {
        lemma_walk_moves(from, to, (m - 1) as nat);
        let w0 = walk(from, to, added_of(from, to), removed_of(from, to), (m - 1) as nat);
        let w = walk(from, to, added_of(from, to), removed_of(from, to), m);
        let j = (m - 1) as nat;
        assert forall|i: nat|
            i < m && moves_at(from, to, i, expected_position(from, to, i)) implies exists|k: int|
            0 <= k < w.moves.len() && w.moves[k].1 == i by {
            if i < j {
                let k = choose|k: int| 0 <= k < w0.moves.len() && w0.moves[k].1 == i;
                assert(w.moves[k] == w0.moves[k]);
            } else {
                assert(w.moves[w.moves.len() - 1].1 == i);
            }
        }
    }
}

/// A generation diffed against itself gives no edit at all.
pub proof fn lemma_diff_self_is_empty(to: Seq<u64>)
    requires
        to.no_duplicates(),
        to.len() <= usize::MAX,
    ensures
        diff_of(to, to) == empty_shape(),
{
    if to.len() > 0 {
        assert forall|i: int| 0 <= i < to.len() implies to.contains(to[i]) by {
            assert(to[i] == to[i]);
        }
        lemma_missing_none(to, to, to.len());
        let a = added_of(to, to);
        let r = removed_of(to, to);
        assert forall|j: nat| j <= to.len() implies walk(to, to, a, r, j) == (WalkState {
            normalized: j as usize,
            next_added: 0,
            next_removed: 0,
            moves: Seq::empty(),
        }) by {
            lemma_walk_identity(to, j);
        }
        assert(!collapses(to, to));
    }
}

proof fn lemma_walk_identity(to: Seq<u64>, j: nat)
    requires
        to.no_duplicates(),
        to.len() <= usize::MAX,
        j <= to.len(),
        added_of(to, to) == Seq::<usize>::empty(),
        removed_of(to, to) == Seq::<usize>::empty(),
    ensures
        walk(to, to, Seq::empty(), Seq::empty(), j) == (WalkState {
            normalized: j as usize,
            next_added: 0,
            next_removed: 0,
            moves: Seq::empty(),
        }),
    decreases j,
{
    if j > 0 {
        lemma_walk_identity(to, (j - 1) as nat);
        let k = to[j - 1];
        assert(to.contains(k)) by {
            assert(to[j - 1] == k);
        }
        assert(to.index_of(k) == j - 1);
    }
}

/// Diffing against an empty generation gives the discard flag alone.
pub proof fn lemma_diff_to_empty_discards(from: Seq<u64>)
    requires
        from.len() > 0,
    ensures
        diff_of(from, Seq::<u64>::empty()) == (DiffShape { clear: true, ..empty_shape() }),
{
}

/// Diffing from an empty generation inserts every key, in order, and nothing
/// else.
pub proof fn lemma_diff_from_empty_inserts_all(to: Seq<u64>)
    requires
        to.len() <= usize::MAX,
    ensures
        diff_of(Seq::<u64>::empty(), to) == all_inserted(to.len()),
{
    let from = Seq::<u64>::empty();
    if to.len() == 0 {
        assert(all_inserted(0).added =~= Seq::<usize>::empty());
    } else {
        lemma_missing_all(to, to.len());
        lemma_missing_none(from, to, 0);
        lemma_walk_moves(from, to, to.len());
        let w = walk(from, to, added_of(from, to), removed_of(from, to), to.len());
        if w.moves.len() > 0 {
            assert(moves_at(from, to, w.moves[0].1 as nat, expected_position(from, to, w.moves[0].1 as nat)));
        }
        assert(w.moves =~= Seq::<(usize, usize)>::empty());
    }
}

/// When every old key is removed and nothing moves, the removals collapse into
/// the discard flag.
pub proof fn lemma_full_removal_collapses(from: Seq<u64>, to: Seq<u64>)
    requires
        from.len() > 0,
        removed_of(from, to).len() == from.len(),
        moved_of(from, to).len() == 0,
    ensures
        diff_of(from, to).clear,
        diff_of(from, to).removed.len() == 0,
{
}

/// No move is emitted for a key whose old position equals both its new index
/// and the running expected old position there.
pub proof fn lemma_no_move_in_place(from: Seq<u64>, to: Seq<u64>, j: nat)
    requires
        to.len() <= usize::MAX,
        j < to.len(),
        from.contains(to[j as int]),
        from.index_of(to[j as int]) == j,
        expected_position(from, to, j) == j,
    ensures
        forall|k: int|
            0 <= k < diff_of(from, to).moved.len() ==> diff_of(from, to).moved[k].1 != j,
{
    lemma_walk_moves(from, to, to.len());
}

/// Every move reads an old slot that no removal of the same diff empties.
pub proof fn lemma_moves_avoid_removals(from: Seq<u64>, to: Seq<u64>)
    requires
        from.len() <= usize::MAX,
        to.len() <= usize::MAX,
    ensures
        forall|k: int|
            0 <= k < diff_of(from, to).moved.len() ==> {
                let src = #[trigger] diff_of(from, to).moved[k].0;
                &&& src < from.len()
                &&& !diff_of(from, to).removed.contains(src)
            },
{
    if to.len() > 0 {
        lemma_walk_moves(from, to, to.len());
        lemma_missing_members(from, to, from.len());
        let d = diff_of(from, to);
        assert forall|k: int| 0 <= k < d.moved.len() implies {
            let src = #[trigger] d.moved[k].0;
            &&& src < from.len()
            &&& !d.removed.contains(src)
        } by {
            let j = d.moved[k].1;
            let key = to[j as int];
            assert(from.contains(key));
            let i = from.index_of(key);
            assert(0 <= i < from.len() && from[i] == key);
            assert(to.contains(from[i])) by {
                assert(to[j as int] == key);
            }
        }
    }
}


proof fn lemma_count_is_common(a: Seq<u64>, b: Seq<u64>, n: nat)
    requires
        a.no_duplicates(),
        n <= a.len(),
    ensures
        a.take(n as int).to_set().finite(),
        count_present(a, b, n) == a.take(n as int).to_set().intersect(b.to_set()).len(),
    decreases n,
{
    broadcast use vstd::set::group_set_axioms;

    if n == 0 {
        assert(a.take(0).to_set() =~= Set::<u64>::empty());
        assert(Set::<u64>::empty().intersect(b.to_set()) =~= Set::<u64>::empty());
    } else {
        lemma_count_is_common(a, b, (n - 1) as nat);
        let sp = a.take(n - 1);
        let x = a[n - 1];
        assert(a.take(n as int) =~= sp.push(x));
        sp.lemma_push_to_set_commute(x);
        let s0 = sp.to_set();
        assert(!s0.contains(x)) by {
            if s0.contains(x) {
                let i = choose|i: int| 0 <= i < sp.len() && sp[i] == x;
                assert(a[i] == a[n - 1]);
            }
        }
        let i0 = s0.intersect(b.to_set());
        if b.contains(x) {
            assert(b.to_set().contains(x));
            assert(s0.insert(x).intersect(b.to_set()) =~= i0.insert(x));
        } else {
            assert(!b.to_set().contains(x));
            assert(s0.insert(x).intersect(b.to_set()) =~= i0);
        }
    }
}

/// Keys present in both generations are as many counted from either side.
proof fn lemma_common_count(from: Seq<u64>, to: Seq<u64>)
    requires
        from.no_duplicates(),
        to.no_duplicates(),
    ensures
        count_present(from, to, from.len()) == count_present(to, from, to.len()),
{
    lemma_count_is_common(from, to, from.len());
    lemma_count_is_common(to, from, to.len());
    assert(from.take(from.len() as int) =~= from);
    assert(to.take(to.len() as int) =~= to);
    assert(from.to_set().intersect(to.to_set()) =~= to.to_set().intersect(from.to_set()));
}

/// An ascending sequence of `n` positions below `n` is `0, 1, ..., n - 1`.
proof fn lemma_ascending_full(r: Seq<usize>)
    requires
        forall|i: int| 0 <= i < r.len() ==> r[i] < r.len(),
        forall|i: int, j: int| 0 <= i < j < r.len() ==> r[i] < r[j],
    ensures
        forall|i: int| 0 <= i < r.len() ==> r[i] == i,
    decreases r.len(),
{
    if r.len() > 0 {
        let p = r.drop_last();
        assert forall|i: int| 0 <= i < p.len() implies p[i] < p.len() by {
            assert(r[i] < r[r.len() - 1]);
        }
        lemma_ascending_full(p);
        if r.len() > 1 {
            assert(r[r.len() - 2] == p[p.len() - 1]);
            assert(r[r.len() - 2] == r.len() - 2);
            assert(r[r.len() - 2] < r[r.len() - 1]);
        }
        assert forall|i: int| 0 <= i < r.len() implies r[i] == i by {
            if i < p.len() {
                assert(r[i] == p[i]);
            }
        }
    }
}

/// The slot array laid out per a generation of keys.
pub open spec fn slots_of(keys: Seq<u64>) -> Seq<Option<u64>> {
    keys.map_values(|k: u64| Some(k))
}


/// The rehydrated diff from `from` to `to`, whose insertions carry their keys.
pub open spec fn carries_keys(from: Seq<u64>, to: Seq<u64>, d: Diff<u64>) -> bool {
    &&& d.shape() == diff_of(from, to)
    &&& forall|i: int|
        0 <= i < d.added@.len() ==> #[trigger] d.added@[i].view == Some(
            to[d.added@[i].at as int],
        )
}

proof fn lemma_len_covers(from: Seq<u64>, to: Seq<u64>, d: Diff<u64>)
    requires
        from.no_duplicates(),
        to.no_duplicates(),
        to.len() > 0,
        carries_keys(from, to, d),
    ensures
        target_len(from.len(), d) >= to.len(),
        target_len(from.len(), d) >= from.len(),
{
    lemma_missing_count(from, to, from.len());
    lemma_missing_count(to, from, to.len());
    lemma_common_count(from, to);
    assert(d.removed@.len() == d.shape().removed.len());
    assert(d.added@.len() == d.shape().added.len());
}

proof fn lemma_after_removals_layout(from: Seq<u64>, to: Seq<u64>, d: Diff<u64>)
    requires
        from.no_duplicates(),
        to.no_duplicates(),
        from.len() <= usize::MAX,
        to.len() <= usize::MAX,
        to.len() > 0,
        carries_keys(from, to, d),
    ensures
        ({
            let x = after_removals(d, slots_of(from)).0;
            &&& x.len() == target_len(from.len(), d)
            &&& forall|i: int|
                0 <= i < x.len() ==> #[trigger] x[i] == if i < from.len() && to.contains(from[i]) {
                    Some(from[i])
                } else {
                    None
                }
        }),
{
    let s = slots_of(from);
    let n = target_len(from.len(), d);
    let s0 = grown(s, n);
    lemma_len_covers(from, to, d);
    lemma_missing_members(from, to, from.len());
    lemma_missing_ascending(from, to, from.len());
    let r = removed_of(from, to);
    let x = after_removals(d, s).0;
    assert forall|i: int| 0 <= i < s0.len() implies #[trigger] s0[i] == if i < from.len() {
        Some(from[i])
    } else {
        None
    } by {
        if i < from.len() {
            assert(s0[i] == s[i]);
        }
    }
    if d.clear {
        assert(collapses(from, to));
        lemma_ascending_full(r);
        assert forall|i: int| 0 <= i < from.len() implies !to.contains(from[i]) by {
            assert(r[i] == i);
            assert(r.contains(i as usize));
        }
    } else {
        lemma_remove_slots(s0, d.removed@);
        assert(d.shape().removed == r);
        assert forall|i: int| 0 <= i < x.len() implies #[trigger] x[i] == if i < from.len()
            && to.contains(from[i]) {
            Some(from[i])
        } else {
            None
        } by {
            if names_slot(d.removed@, i) {
                let k = choose|k: int| 0 <= k < d.removed@.len() && #[trigger] d.removed@[k].at == i;
                assert(r[k] == i);
                assert(r.contains(i as usize));
            }
            if i < from.len() && !to.contains(from[i]) {
                assert(r.contains(i as usize));
                let k = choose|k: int| 0 <= k < r.len() && r[k] == i as usize;
                assert(d.removed@[k].at == i);
            }
        }
    }
}

/// Applying the diff from `from` to `to`, its insertions carrying their keys,
/// to slots laid out per `from` gives slots laid out per `to`.
pub proof fn lemma_apply_reaches_target(from: Seq<u64>, to: Seq<u64>, d: Diff<u64>)
    requires
        from.no_duplicates(),
        to.no_duplicates(),
        from.len() <= usize::MAX,
        to.len() <= usize::MAX,
        carries_keys(from, to, d),
    ensures
        applied(d, slots_of(from)) == slots_of(to),
{
    let s = slots_of(from);
    let x = after_removals(d, s).0;
    assert(d.moved@.len() == d.shape().moved.len());
    assert(d.added@.len() == d.shape().added.len());
    if to.len() == 0 {
        assert(d.moved@.len() == 0 && d.added@.len() == 0);
        assert(edited(d, s) == x);
        if from.len() > 0 {
            assert(forall|j: int| 0 <= j < x.len() ==> (#[trigger] x[j]) is None);
        } else {
            assert(d.removed@.len() == d.shape().removed.len());
            assert(x.len() == 0);
        }
        lemma_compact_prefix(x, 0);
        assert(x.take(0) =~= slots_of(to));
    } else {
        let n = target_len(from.len(), d);
        lemma_len_covers(from, to, d);
        lemma_after_removals_layout(from, to, d);
        lemma_walk_moves(from, to, to.len());
        lemma_missing_members(to, from, to.len());
        lemma_missing_ascending(to, from, to.len());
        let mv = d.moved@;
        let a = added_of(from, to);
        assert(d.shape().moved == moved_of(from, to));
        assert(d.shape().added == a);
        // what each move is
        assert forall|k: int| 0 <= k < mv.len() implies {
            &&& #[trigger] mv[k].to < to.len()
            &&& from.contains(to[mv[k].to as int])
            &&& mv[k].from == from.index_of(to[mv[k].to as int])
            &&& mv[k].from < from.len()
            &&& from[mv[k].from as int] == to[mv[k].to as int]
        } by {
            assert(mv[k].to == moved_of(from, to)[k].1);
            assert(mv[k].from == moved_of(from, to)[k].0);
            let j = mv[k].to as int;
            assert(moves_at(from, to, j as nat, expected_position(from, to, j as nat)));
        }
        assert forall|k1: int, k2: int| 0 <= k1 < k2 < mv.len() implies #[trigger] mv[k1].to
            < #[trigger] mv[k2].to by {
            assert(mv[k1].to == moved_of(from, to)[k1].1);
            assert(mv[k2].to == moved_of(from, to)[k2].1);
        }
        assert forall|k1: int, k2: int| 0 <= k1 < k2 < mv.len() implies #[trigger] mv[k1].from
            != #[trigger] mv[k2].from by {
            assert(mv[k1].to < mv[k2].to);
            assert(mv[k1].to < to.len() && mv[k2].to < to.len());
            if mv[k1].from == mv[k2].from {
                assert(to[mv[k1].to as int] == to[mv[k2].to as int]);
            }
        }
        assert forall|k: int| 0 <= k < mv.len() implies #[trigger] mv[k].from < x.len() by {
            assert(mv[k].to < to.len());
        }
        assert forall|k: int| 0 <= k < mv.len() implies x[#[trigger] mv[k].from as int] is Some by {
            assert(mv[k].to < to.len());
            assert(mv[k].from < from.len());
            assert(to.contains(from[mv[k].from as int])) by {
                assert(to[mv[k].to as int] == from[mv[k].from as int]);
            }
        }
        lemma_take_moved(x, mv);
        let y = take_moved(x, mv).0;
        let staged = take_moved(x, mv).1;
        assert forall|k: int| 0 <= k < staged.len() implies #[trigger] staged[k] == (
            mv[k].to,
            to[mv[k].to as int],
        ) by {
            assert(staged[k] == (mv[k].to, x[mv[k].from as int]->0));
        }
        assert forall|k: int| 0 <= k < staged.len() implies #[trigger] staged[k].0 < y.len() by {
            assert(staged[k] == (mv[k].to, to[mv[k].to as int]));
        }
        assert forall|k1: int, k2: int| 0 <= k1 < k2 < staged.len() implies #[trigger] staged[k1].0
            != #[trigger] staged[k2].0 by {
            assert(staged[k1] == (mv[k1].to, to[mv[k1].to as int]));
            assert(staged[k2] == (mv[k2].to, to[mv[k2].to as int]));
            assert(mv[k1].to < mv[k2].to);
        }
        lemma_put_moved(y, staged);
        let z = put_moved(y, staged);
        let ad = d.added@;
        assert forall|k: int| 0 <= k < ad.len() implies #[trigger] ad[k].at == a[k] by {
            assert(ad[k].at == d.shape().added[k]);
        }
        assert forall|k: int| 0 <= k < ad.len() implies #[trigger] ad[k].at < z.len() by {
            assert(ad[k].at == a[k]);
        }
        assert forall|k1: int, k2: int| 0 <= k1 < k2 < ad.len() implies #[trigger] ad[k1].at
            != #[trigger] ad[k2].at by {
            assert(ad[k1].at == a[k1]);
            assert(ad[k2].at == a[k2]);
        }
        lemma_put_added(z, ad);
        let e = edited(d, s);
        assert(e == crate::apply::put_added(z, ad));
        assert forall|j: int| 0 <= j < to.len() implies #[trigger] e[j] == Some(to[j]) by {
            if !from.contains(to[j]) {
                assert(a.contains(j as usize));
                let k = choose|k: int| 0 <= k < a.len() && a[k] == j as usize;
                assert(ad[k].at == j);
                assert(ad[k].view == Some(to[ad[k].at as int]));
            } else {
                assert(!is_insert_at(ad, j)) by {
                    if is_insert_at(ad, j) {
                        let k = choose|k: int| 0 <= k < ad.len() && #[trigger] ad[k].at == j;
                        assert(a[k] == j);
                        assert(a.contains(j as usize));
                    }
                }
                if is_target(staged, j) {
                    let k = choose|k: int| 0 <= k < staged.len() && #[trigger] staged[k].0 == j;
                    assert(staged[k] == (mv[k].to, to[mv[k].to as int]));
                } else {
                    let fi = from.index_of(to[j]);
                    assert(0 <= fi < from.len() && from[fi] == to[j]);
                    assert(fi == j) by {
                        if moves_at(from, to, j as nat, expected_position(from, to, j as nat)) {
                            let w = walk(from, to, a, removed_of(from, to), to.len());
                            let k = choose|k: int| 0 <= k < w.moves.len() && w.moves[k].1 == j;
                            assert(w.moves == moved_of(from, to));
                            assert(mv.len() == w.moves.len());
                            assert(mv[k].to == w.moves[k].1);
                            assert(staged[k] == (mv[k].to, to[mv[k].to as int]));
                            assert(staged[k].0 == j);
                            assert(is_target(staged, j));
                        }
                    }
                    assert(!is_source(mv, j)) by {
                        if is_source(mv, j) {
                            let k = choose|k: int| 0 <= k < mv.len() && #[trigger] mv[k].from == j;
                            assert(to[mv[k].to as int] == from[j]);
                            assert(mv[k].to < to.len());
                            assert(to[mv[k].to as int] == to[j]);
                            assert(mv[k].to == j);
                            assert(staged[k] == (mv[k].to, to[mv[k].to as int]));
                            assert(staged[k].0 == j);
                            assert(is_target(staged, j));
                        }
                    }
                    assert(to.contains(from[j])) by {
                        assert(to[j] == from[j]);
                    }
                    assert(e[j] == z[j]);
                    assert(z[j] == y[j]);
                    assert(y[j] == x[j]);
                }
            }
        }
        assert forall|i: int| to.len() <= i < e.len() implies (#[trigger] e[i]) is None by {
            assert(!is_insert_at(ad, i)) by {
                if is_insert_at(ad, i) {
                    let k = choose|k: int| 0 <= k < ad.len() && #[trigger] ad[k].at == i;
                    assert(ad[k].at == a[k]);
                }
            }
            assert(!is_target(staged, i)) by {
                if is_target(staged, i) {
                    let k = choose|k: int| 0 <= k < staged.len() && #[trigger] staged[k].0 == i;
                    assert(staged[k] == (mv[k].to, to[mv[k].to as int]));
                }
            }
            assert(e[i] == z[i]);
            assert(z[i] == y[i]);
            if !is_source(mv, i) {
                assert(y[i] == x[i]);
                if i < from.len() && to.contains(from[i]) {
                    let j = choose|j: int| 0 <= j < to.len() && to[j] == from[i];
                    assert(from.contains(to[j])) by {
                        assert(from[i] == to[j]);
                    }
                    let fi = from.index_of(to[j]);
                    assert(fi == i);
                    assert(moves_at(from, to, j as nat, expected_position(from, to, j as nat)));
                    let w = walk(from, to, a, removed_of(from, to), to.len());
                    let k = choose|k: int| 0 <= k < w.moves.len() && w.moves[k].1 == j;
                    assert(w.moves == moved_of(from, to));
                    assert(mv.len() == w.moves.len());
                    assert(mv[k].to == w.moves[k].1);
                    assert(mv[k].to < to.len());
                    assert(mv[k].from == i);
                    assert(is_source(mv, i));
                }
            }
        }
        lemma_compact_prefix(e, to.len());
        assert(e.take(to.len() as int) =~= slots_of(to));
    }
}


/// Carried out on slots laid out per `from`, the discard flag and the
/// removals of the diff from `from` to `to` leave every slot that a move of
/// the same diff reads still occupied.
pub proof fn lemma_moves_read_occupied_slots(from: Seq<u64>, to: Seq<u64>, d: Diff<u64>)
    requires
        from.no_duplicates(),
        to.no_duplicates(),
        from.len() <= usize::MAX,
        to.len() <= usize::MAX,
        carries_keys(from, to, d),
    ensures
        forall|k: int|
            0 <= k < d.moved@.len() ==> {
                let x = after_removals(d, slots_of(from)).0;
                &&& #[trigger] d.moved@[k].from < x.len()
                &&& x[d.moved@[k].from as int] is Some
            },
{
    let mv = d.moved@;
    assert(mv.len() == d.shape().moved.len());
    if to.len() > 0 {
        lemma_after_removals_layout(from, to, d);
        lemma_len_covers(from, to, d);
        lemma_walk_moves(from, to, to.len());
        assert(d.shape().moved == moved_of(from, to));
        let x = after_removals(d, slots_of(from)).0;
        assert forall|k: int| 0 <= k < mv.len() implies {
            &&& #[trigger] mv[k].from < x.len()
            &&& x[mv[k].from as int] is Some
        } by {
            assert(mv[k].to == moved_of(from, to)[k].1);
            assert(mv[k].from == moved_of(from, to)[k].0);
            let j = mv[k].to as int;
            assert(moves_at(from, to, j as nat, expected_position(from, to, j as nat)));
            let fi = from.index_of(to[j]);
            assert(0 <= fi < from.len() && from[fi] == to[j]);
            assert(to.contains(from[fi]));
        }
    } else {
        assert(mv.len() == 0);
    }
}


/// The keys of `from` that `to` no longer holds, in their old order.
pub open spec fn dropped_keys(from: Seq<u64>, to: Seq<u64>) -> Seq<u64> {
    removed_of(from, to).map_values(|i: usize| from[i as int])
}

/// Applying the diff from `from` to `to` to slots laid out per `from`
/// disposes of exactly the children whose keys `to` no longer holds, each
/// once, in their old order.
pub proof fn lemma_disposes_dropped_children(from: Seq<u64>, to: Seq<u64>, d: Diff<u64>)
    requires
        from.no_duplicates(),
        to.no_duplicates(),
        from.len() <= usize::MAX,
        to.len() <= usize::MAX,
        carries_keys(from, to, d),
    ensures
        disposed_of(d, slots_of(from)) == dropped_keys(from, to),
{
    let s = slots_of(from);
    let n = target_len(from.len(), d);
    let s0 = grown(s, n);
    let r = removed_of(from, to);
    lemma_missing_members(from, to, from.len());
    lemma_missing_ascending(from, to, from.len());
    lemma_missing_count(from, to, from.len());
    assert(n >= from.len());
    assert forall|i: int| 0 <= i < s0.len() implies #[trigger] s0[i] == if i < from.len() {
        Some(from[i])
    } else {
        None
    } by {
        if i < from.len() {
            assert(s0[i] == s[i]);
        }
    }
    if d.clear {
        // every old key is gone: the removals are all old positions
        if to.len() == 0 {
            assert(count_present(from, to, from.len()) == 0) by {
                lemma_none_present(from, to, from.len());
            }
        } else {
            assert(collapses(from, to));
        }
        assert(r.len() == from.len());
        lemma_ascending_full(r);
        lemma_occupants_prefix(s0, from.len());
        assert(disposed_of(d, s) =~= dropped_keys(from, to));
    } else if to.len() == 0 {
        assert(from.len() == 0);
        assert(d.removed@.len() == d.shape().removed.len());
        assert(disposed_of(d, s) =~= dropped_keys(from, to));
    } else {
        assert(d.shape().removed == r);
        let ops = d.removed@;
        assert forall|k: int| 0 <= k < ops.len() implies #[trigger] ops[k].at == r[k] by {
            assert(ops[k].at == d.shape().removed[k]);
        }
        assert forall|k: int| 0 <= k < ops.len() implies #[trigger] ops[k].at < s0.len() by {
            assert(ops[k].at == r[k]);
        }
        assert forall|k: int| 0 <= k < ops.len() implies s0[#[trigger] ops[k].at as int] is Some by {
            assert(ops[k].at == r[k]);
        }
        assert forall|k1: int, k2: int| 0 <= k1 < k2 < ops.len() implies #[trigger] ops[k1].at
            != #[trigger] ops[k2].at by {
            assert(ops[k1].at == r[k1]);
            assert(ops[k2].at == r[k2]);
        }
        lemma_removed_children(s0, ops);
        assert forall|k: int| 0 <= k < ops.len() implies #[trigger] disposed_of(d, s)[k]
            == dropped_keys(from, to)[k] by {
            assert(ops[k].at == r[k]);
        }
        assert(disposed_of(d, s) =~= dropped_keys(from, to));
    }
}

proof fn lemma_none_present(a: Seq<u64>, b: Seq<u64>, n: nat)
    requires
        b.len() == 0,
    ensures
        count_present(a, b, n) == 0,
    decreases n,
{
    if n > 0 {
        lemma_none_present(a, b, (n - 1) as nat);
    }
}

} // verus!
