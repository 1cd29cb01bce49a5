//! The change detector's step: from the previous generation's keys and a
//! fresh evaluation of the items, the diff to hand to the applier.

use vstd::prelude::*;

use crate::apply::take_slot;
use crate::diff::{
    add_positions, diff, diff_of, lemma_missing_count, missing_positions, Diff, DiffOpAdd, DiffShape,
};
use crate::key_set::{key_set_wf, keys_of, KeySet};

verus! {

/// Every position of a generation of `n` items inserted, nothing else.
pub open spec fn all_inserted(n: nat) -> DiffShape {
    DiffShape {
        clear: false,
        removed: Seq::empty(),
        moved: Seq::empty(),
        added: Seq::new(n, |i: int| i as usize),
    }
}

/// The positions that `missing_positions` gives are below `n` and ascending.
pub proof fn lemma_missing_ascending(a: Seq<u64>, b: Seq<u64>, n: nat)
    requires
        n <= usize::MAX,
    ensures
        forall|i: int|
            0 <= i < missing_positions(a, b, n).len() ==> missing_positions(a, b, n)[i] < n,
        forall|i: int, j: int|
            0 <= i < j < missing_positions(a, b, n).len() ==> missing_positions(a, b, n)[i]
                < missing_positions(a, b, n)[j],
    decreases n,
{
    if n > 0 {
        lemma_missing_ascending(a, b, (n - 1) as nat);
        let prior = missing_positions(a, b, (n - 1) as nat);
        let r = missing_positions(a, b, n);
        assert(r == prior || r == prior.push((n - 1) as usize));
    }
}

/// The diff for a fresh evaluation of the items. On the first evaluation
/// (`prev` is `None`) every item is inserted at its own position. Otherwise
/// the diff runs from the previous keys to `keys`, the keys of `items`, and
/// each insertion carries the item at its position.
pub fn generation_diff<T>(prev: Option<&KeySet>, keys: &KeySet, items: Vec<T>) -> (d: Diff<T>)
    requires
        key_set_wf(keys),
        prev matches Some(p) ==> key_set_wf(p) && items@.len() == keys_of(*keys).len(),
    ensures
        prev is None ==> d.shape() == all_inserted(items@.len()),
        prev matches Some(p) ==> d.shape() == diff_of(keys_of(*p), keys_of(*keys)),
        d.added@.len() <= items@.len(),
        forall|i: int|
            0 <= i < d.added@.len() ==> d.added@[i].at < items@.len() && d.added@[i].view
                == Some(items@[d.added@[i].at as int]),
{
    let ghost orig = items@;
    let n = items.len();
    let mut slots: Vec<Option<T>> = Vec::new();
    let mut rest = crate::apply::reversed(items);
    while rest.len() > 0
        invariant
            rest@.len() <= orig.len(),
            rest@ == orig.subrange(slots@.len() as int, orig.len() as int).reverse(),
            slots@.len() + rest@.len() == orig.len(),
            forall|j: int| 0 <= j < slots@.len() ==> slots@[j] == Some(orig[j]),
        decreases rest.len(),
    {
        let x = rest.pop().unwrap();
        proof {
            assert(rest@ =~= orig.subrange(slots@.len() + 1int, orig.len() as int).reverse());
        }
        slots.push(Some(x));
    }
    let ops: Diff<T> = match prev {
        None => Diff { removed: Vec::new(), moved: Vec::new(), added: Vec::new(), clear: false },
        Some(p) => diff(p, keys),
    };
    let ghost shape = ops.shape();
    proof {
        if let Some(p) = prev {
            lemma_missing_ascending(keys_of(*keys), keys_of(*p), keys_of(*keys).len());
            lemma_missing_count(keys_of(*keys), keys_of(*p), keys_of(*keys).len());
        }
    }
    let Diff { removed, moved, added, clear } = ops;
    let ghost pos: Seq<usize> = if prev is None {
        Seq::new(n as nat, |i: int| i as usize)
    } else {
        add_positions(added@)
    };
    let mut hydrated: Vec<DiffOpAdd<T>> = Vec::new();
    let ghost all_added = add_positions(added@);
    let mut pending = crate::apply::reversed(added);
    let count: usize = if prev.is_none() {
        n
    } else {
        pending.len()
    };
    let mut k: usize = 0;
    while k < count
        invariant
            slots@.len() == orig.len(),
            n == orig.len(),
            count == pos.len(),
            k <= count,
            prev is None ==> pos == Seq::new(n as nat, |i: int| i as usize),
            prev is Some ==> pos == all_added && pending@.len() + k == count
                && forall|i: int| 0 <= i < pending@.len() ==> pending@[i].at == pos[count - 1 - i],
            forall|i: int| 0 <= i < pos.len() ==> pos[i] < n,
            forall|i: int, j: int| 0 <= i < j < pos.len() ==> pos[i] < pos[j],
            forall|j: int| 0 <= j < slots@.len() && (k == 0 || j > pos[k - 1]) ==> slots@[j]
                == Some(orig[j]),
            add_positions(hydrated@) == pos.take(k as int),
            forall|i: int|
                0 <= i < hydrated@.len() ==> hydrated@[i].at < orig.len() && hydrated@[i].view
                    == Some(orig[hydrated@[i].at as int]),
        decreases count - k,
    {
        let at: usize = if prev.is_none() {
            assert(pos[k as int] == k);
            k
        } else {
            let ghost last_at = pending@.last().at;
            assert(last_at == pos[k as int]) by {
                assert(pending@.len() - 1 == count - 1 - k);
            }
            let op = pending.pop().unwrap();
            assert(op.at == last_at);
            op.at
        };
        assert(at == pos[k as int]);
        let v = take_slot(&mut slots, at);
        let ghost before = hydrated@;
        hydrated.push(DiffOpAdd { at, view: v });
        proof {
            assert(add_positions(hydrated@) =~= add_positions(before).push(at));
            assert(pos.take(k + 1) =~= pos.take(k as int).push(at));
        }
        k += 1;
    }
    assert(pos.take(k as int) =~= pos);
    let d = Diff { removed, moved, added: hydrated, clear };
    proof {
        if prev is None {
            assert(d.shape().removed =~= Seq::<usize>::empty());
            assert(d.shape().moved =~= Seq::<(usize, usize)>::empty());
        }
    }
    d
}

} // verus!
