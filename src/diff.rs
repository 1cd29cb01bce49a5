//! The diff engine: the edit script between two generations of keys.

use vstd::prelude::*;

use crate::key_set::{key_at, key_count, key_index, key_set_wf, keys_of, KeySet};

verus! {

/// Removal of the slot at `at` in the old array.
#[derive(Debug, Clone, Copy, PartialEq, Eq)]
pub struct DiffOpRemove {
    pub at: usize,
}

/// Relocation of the slot at old position `from` to new position `to`.
#[derive(Debug, Clone, Copy, PartialEq, Eq)]
pub struct DiffOpMove {
    pub from: usize,
    pub to: usize,
}

/// Insertion at new position `at`; `view` holds the source item once the
/// operation has been rehydrated.
#[derive(Debug)]
pub struct DiffOpAdd<V> {
    pub at: usize,
    pub view: Option<V>,
}

/// The edit script between two generations.
#[derive(Debug)]
pub struct Diff<V> {
    pub removed: Vec<DiffOpRemove>,
    pub moved: Vec<DiffOpMove>,
    pub added: Vec<DiffOpAdd<V>>,
    pub clear: bool,
}

/// The positions a diff speaks of, without the items of its insertions.
pub struct DiffShape {
    pub clear: bool,
    pub removed: Seq<usize>,
    pub moved: Seq<(usize, usize)>,
    pub added: Seq<usize>,
}

pub open spec fn remove_positions(ops: Seq<DiffOpRemove>) -> Seq<usize> {
    ops.map_values(|o: DiffOpRemove| o.at)
}

pub open spec fn move_positions(ops: Seq<DiffOpMove>) -> Seq<(usize, usize)> {
    ops.map_values(|o: DiffOpMove| (o.from, o.to))
}

pub open spec fn add_positions<V>(ops: Seq<DiffOpAdd<V>>) -> Seq<usize> {
    ops.map_values(|o: DiffOpAdd<V>| o.at)
}

pub open spec fn empty_shape() -> DiffShape {
    DiffShape { clear: false, removed: Seq::empty(), moved: Seq::empty(), added: Seq::empty() }
}

impl<V> Diff<V> {
    pub open spec fn shape(&self) -> DiffShape {
        DiffShape {
            clear: self.clear,
            removed: remove_positions(self.removed@),
            moved: move_positions(self.moved@),
            added: add_positions(self.added@),
        }
    }

    /// No edit at all: no removal, move or insertion, and no discard flag.
    pub fn is_empty(&self) -> (r: bool)
        ensures
            r == (self.removed@.len() == 0 && self.moved@.len() == 0 && self.added@.len() == 0
                && !self.clear),
    {
        self.removed.len() == 0 && self.moved.len() == 0 && self.added.len() == 0 && !self.clear
    }
}

impl<V> Default for Diff<V> {
    fn default() -> (r: Self)
        ensures
            r.shape() == empty_shape(),
            r.added@.len() == 0,
    {
        let r = Diff { removed: Vec::new(), moved: Vec::new(), added: Vec::new(), clear: false };
        proof {
            assert(r.shape().removed =~= Seq::<usize>::empty());
            assert(r.shape().moved =~= Seq::<(usize, usize)>::empty());
            assert(r.shape().added =~= Seq::<usize>::empty());
        }
        r
    }
}

/// The positions among the first `n` keys of `a` whose key is not in `b`,
/// ascending.
pub open spec fn missing_positions(a: Seq<u64>, b: Seq<u64>, n: nat) -> Seq<usize>
    decreases n,
{
    if n == 0 {
        Seq::empty()
    } else {
        let prior = missing_positions(a, b, (n - 1) as nat);
        if !b.contains(a[n - 1]) {
            prior.push((n - 1) as usize)
        } else {
            prior
        }
    }
}

/// How many of the first `n` keys of `a` are in `b`.
pub open spec fn count_present(a: Seq<u64>, b: Seq<u64>, n: nat) -> nat
    decreases n,
{
    if n == 0 {
        0
    } else {
        count_present(a, b, (n - 1) as nat) + if b.contains(a[n - 1]) {
            1nat
        } else {
            0nat
        }
    }
}

/// The positions missing from `b` and the keys present in `b` make up the
/// first `n` keys of `a`.
pub proof fn lemma_missing_count(a: Seq<u64>, b: Seq<u64>, n: nat)
    ensures
        missing_positions(a, b, n).len() + count_present(a, b, n) == n,
    decreases n,
{
    if n > 0 {
        lemma_missing_count(a, b, (n - 1) as nat);
    }
}

/// The state of the walk over the new keys: the running expected old position,
/// the insertion and removal cursors, and the moves emitted so far.
pub struct WalkState {
    pub normalized: usize,
    pub next_added: nat,
    pub next_removed: nat,
    pub moves: Seq<(usize, usize)>,
}

/// The expected old position at new index `j`, after its insertion and
/// removal cursors have been consulted, with the cursors as they then stand.
pub open spec fn adjusted(added: Seq<usize>, removed: Seq<usize>, s: WalkState, j: nat) -> (
    usize,
    nat,
    nat,
) {
    let (n1, ka) = if s.next_added < added.len() && added[s.next_added as int] == j {
        (vstd::wrapping::usize_specs::wrapping_sub(s.normalized, 1), s.next_added + 1)
    } else {
        (s.normalized, s.next_added)
    };
    if s.next_removed < removed.len() && removed[s.next_removed as int] == j {
        (vstd::wrapping::usize_specs::wrapping_add(n1, 1), ka, s.next_removed + 1)
    } else {
        (n1, ka, s.next_removed)
    }
}

/// Whether the key at new index `j` is moved, given the adjusted expected
/// old position `n`.
pub open spec fn moves_at(from: Seq<u64>, to: Seq<u64>, j: nat, n: usize) -> bool {
    from.contains(to[j as int]) && (from.index_of(to[j as int]) != j || from.index_of(
        to[j as int],
    ) != n)
}

/// The walk after its first `j` iterations.
pub open spec fn walk(
    from: Seq<u64>,
    to: Seq<u64>,
    added: Seq<usize>,
    removed: Seq<usize>,
    j: nat,
) -> WalkState
    decreases j,
{
    if j == 0 {
        WalkState { normalized: 0, next_added: 0, next_removed: 0, moves: Seq::empty() }
    } else {
        let s = walk(from, to, added, removed, (j - 1) as nat);
        let (n, ka, kr) = adjusted(added, removed, s, (j - 1) as nat);
        WalkState {
            normalized: vstd::wrapping::usize_specs::wrapping_add(n, 1),
            next_added: ka,
            next_removed: kr,
            moves: if moves_at(from, to, (j - 1) as nat, n) {
                s.moves.push((from.index_of(to[j - 1]) as usize, (j - 1) as usize))
            } else {
                s.moves
            },
        }
    }
}

pub open spec fn removed_of(from: Seq<u64>, to: Seq<u64>) -> Seq<usize> {
    missing_positions(from, to, from.len())
}

pub open spec fn added_of(from: Seq<u64>, to: Seq<u64>) -> Seq<usize> {
    missing_positions(to, from, to.len())
}

pub open spec fn moved_of(from: Seq<u64>, to: Seq<u64>) -> Seq<(usize, usize)> {
    walk(from, to, added_of(from, to), removed_of(from, to), to.len()).moves
}

/// The per-item removals collapse into the discard flag.
pub open spec fn collapses(from: Seq<u64>, to: Seq<u64>) -> bool {
    from.len() > 0 && removed_of(from, to).len() == from.len() && moved_of(from, to).len() == 0
}

/// The edit script from generation `from` to generation `to`.
pub open spec fn diff_of(from: Seq<u64>, to: Seq<u64>) -> DiffShape {
    if from.len() == 0 && to.len() == 0 {
        empty_shape()
    } else if to.len() == 0 {
        DiffShape { clear: true, ..empty_shape() }
    } else {
        DiffShape {
            clear: collapses(from, to),
            removed: if collapses(from, to) {
                Seq::empty()
            } else {
                removed_of(from, to)
            },
            moved: moved_of(from, to),
            added: added_of(from, to),
        }
    }
}

/// Positions of the keys of `a` that are absent from `b`, ascending.
fn missing_in(a: &KeySet, b: &KeySet) -> (r: Vec<usize>)
    ensures
        r@ == missing_positions(keys_of(*a), keys_of(*b), keys_of(*a).len()),
{
    let n = key_count(a);
    let mut r: Vec<usize> = Vec::new();
    let mut i: usize = 0;
    while i < n
        invariant
            n == keys_of(*a).len(),
            i <= n,
            r@ == missing_positions(keys_of(*a), keys_of(*b), i as nat),
        decreases n - i,
    {
        let k = key_at(a, i);
        if key_index(b, k).is_none() {
            r.push(i);
        }
        i += 1;
    }
    r
}

/// Calculates the operations needed to get from `from` to `to`.
pub fn diff<V>(from: &KeySet, to: &KeySet) -> (d: Diff<V>)
    requires
        key_set_wf(from),
        key_set_wf(to),
    ensures
        d.shape() == diff_of(keys_of(*from), keys_of(*to)),
        forall|i: int| 0 <= i < d.added@.len() ==> d.added@[i].view is None,
{
    let ghost f = keys_of(*from);
    let ghost t = keys_of(*to);
    let from_len = key_count(from);
    let to_len = key_count(to);
    if from_len == 0 && to_len == 0 {
        return Diff::default();
    } else if to_len == 0 {
        let mut d = Diff::default();
        d.clear = true;
        return d;
    }
    let removed_at = missing_in(from, to);
    let added_at = missing_in(to, from);
    let mut normalized: usize = 0;
    let mut ka: usize = 0;
    let mut kr: usize = 0;
    let mut moved: Vec<DiffOpMove> = Vec::new();
    let mut idx: usize = 0;
    while idx < to_len
        invariant
            to_len == t.len(),
            f == keys_of(*from),
            t == keys_of(*to),
            f.no_duplicates(),
            idx <= to_len,
            removed_at@ == removed_of(f, t),
            added_at@ == added_of(f, t),
            normalized == walk(f, t, added_at@, removed_at@, idx as nat).normalized,
            ka == walk(f, t, added_at@, removed_at@, idx as nat).next_added,
            kr == walk(f, t, added_at@, removed_at@, idx as nat).next_removed,
            ka <= added_at@.len(),
            kr <= removed_at@.len(),
            move_positions(moved@) == walk(f, t, added_at@, removed_at@, idx as nat).moves,
        decreases to_len - idx,
    {
        let ghost s = walk(f, t, added_at@, removed_at@, idx as nat);
        if ka < added_at.len() && added_at[ka] == idx {
            ka += 1;
            normalized = normalized.wrapping_sub(1);
        }
        if kr < removed_at.len() && removed_at[kr] == idx {
            kr += 1;
            normalized = normalized.wrapping_add(1);
        }
        let ghost adj = adjusted(added_at@, removed_at@, s, idx as nat);
        assert(normalized == adj.0 && ka == adj.1 && kr == adj.2);
        let k = key_at(to, idx);
        let ghost moved_before = moved@;
        match key_index(from, k) {
            Some(fi) => {
                assert(f.index_of(k) == fi) by {
                    assert(f.contains(k));
                    assert(f[f.index_of(k)] == k);
                }
                if fi != normalized || fi != idx {
                    moved.push(DiffOpMove { from: fi, to: idx });
                    assert(move_positions(moved@) =~= move_positions(moved_before).push(
                        (fi, idx),
                    ));
                }
            },
            None => {},
        }
        normalized = normalized.wrapping_add(1);
        idx += 1;
    }
    let mut removed: Vec<DiffOpRemove> = Vec::new();
    let collapse = from_len > 0 && removed_at.len() == from_len && moved.len() == 0;
    if !collapse {
        let mut i: usize = 0;
        while i < removed_at.len()
            invariant
                i <= removed_at.len(),
                remove_positions(removed@) == removed_at@.take(i as int),
            decreases removed_at.len() - i,
        {
            let ghost before = removed@;
            removed.push(DiffOpRemove { at: removed_at[i] });
            assert(remove_positions(removed@) =~= remove_positions(before).push(removed_at@[i as int]));
            assert(removed_at@.take(i + 1) =~= removed_at@.take(i as int).push(removed_at@[i as int]));
            i += 1;
        }
        assert(removed_at@.take(i as int) =~= removed_at@);
    }
    let mut added: Vec<DiffOpAdd<V>> = Vec::new();
    let mut j: usize = 0;
    while j < added_at.len()
        invariant
            j <= added_at.len(),
            add_positions(added@) == added_at@.take(j as int),
            forall|i: int| 0 <= i < added@.len() ==> added@[i].view is None,
        decreases added_at.len() - j,
    {
        let ghost before = added@;
        added.push(DiffOpAdd { at: added_at[j], view: None });
        assert(add_positions(added@) =~= add_positions(before).push(added_at@[j as int]));
        assert(added_at@.take(j + 1) =~= added_at@.take(j as int).push(added_at@[j as int]));
        j += 1;
    }
    assert(added_at@.take(j as int) =~= added_at@);
    let d = Diff { removed, moved, added, clear: collapse };
    proof {
        if collapse {
            assert(d.shape().removed =~= Seq::<usize>::empty());
        }
    }
    d
}

} // verus!
